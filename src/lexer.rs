use vstd::prelude::*;
use vstd::string::StrSliceExecFns;

verus! {

/// A lexical unit of the language.
#[derive(Debug, Clone)]
pub enum Token {
    Number(i64),
    Ident(String),
    Let,
    Equals,
    Plus,
    Minus,
    Multiply,
    Divide,
    Semicolon,
    LeftParen,
    RightParen,
    LeftBrace,
    RightBrace,
    EOF,
    Illegal(char),
}

/// The mathematical value of a token: its text payload as a sequence of characters.
pub enum Lexeme {
    Number(i64),
    Ident(Seq<char>),
    Let,
    Equals,
    Plus,
    Minus,
    Multiply,
    Divide,
    Semicolon,
    LeftParen,
    RightParen,
    LeftBrace,
    RightBrace,
    EOF,
    Illegal(char),
}

/// The shape of a token with its payload left out; parsing matches on this.
#[derive(Debug, Clone, Copy, PartialEq, Eq, Structural)]
pub enum TokenKind {
    Number,
    Ident,
    Let,
    Equals,
    Plus,
    Minus,
    Multiply,
    Divide,
    Semicolon,
    LeftParen,
    RightParen,
    LeftBrace,
    RightBrace,
    EOF,
    Illegal,
}

impl View for Token {
    type V = Lexeme;

    open spec fn view(&self) -> Lexeme {
        match self {
            Token::Number(n) => Lexeme::Number(*n),
            Token::Ident(s) => Lexeme::Ident(s@),
            Token::Let => Lexeme::Let,
            Token::Equals => Lexeme::Equals,
            Token::Plus => Lexeme::Plus,
            Token::Minus => Lexeme::Minus,
            Token::Multiply => Lexeme::Multiply,
            Token::Divide => Lexeme::Divide,
            Token::Semicolon => Lexeme::Semicolon,
            Token::LeftParen => Lexeme::LeftParen,
            Token::RightParen => Lexeme::RightParen,
            Token::LeftBrace => Lexeme::LeftBrace,
            Token::RightBrace => Lexeme::RightBrace,
            Token::EOF => Lexeme::EOF,
            Token::Illegal(c) => Lexeme::Illegal(*c),
        }
    }
}

pub open spec fn kind_of(l: Lexeme) -> TokenKind {
    match l {
        Lexeme::Number(_) => TokenKind::Number,
        Lexeme::Ident(_) => TokenKind::Ident,
        Lexeme::Let => TokenKind::Let,
        Lexeme::Equals => TokenKind::Equals,
        Lexeme::Plus => TokenKind::Plus,
        Lexeme::Minus => TokenKind::Minus,
        Lexeme::Multiply => TokenKind::Multiply,
        Lexeme::Divide => TokenKind::Divide,
        Lexeme::Semicolon => TokenKind::Semicolon,
        Lexeme::LeftParen => TokenKind::LeftParen,
        Lexeme::RightParen => TokenKind::RightParen,
        Lexeme::LeftBrace => TokenKind::LeftBrace,
        Lexeme::RightBrace => TokenKind::RightBrace,
        Lexeme::EOF => TokenKind::EOF,
        Lexeme::Illegal(_) => TokenKind::Illegal,
    }
}

/// The views of a sequence of tokens.
pub open spec fn lexemes(ts: Seq<Token>) -> Seq<Lexeme> {
    ts.map_values(|t: Token| t@)
}

impl Token {
    /// The kind of this token, ignoring any payload.
    pub fn kind(&self) -> (k: TokenKind)
        ensures
            k == kind_of(self@),
    {
        match self {
            Token::Number(_) => TokenKind::Number,
            Token::Ident(_) => TokenKind::Ident,
            Token::Let => TokenKind::Let,
            Token::Equals => TokenKind::Equals,
            Token::Plus => TokenKind::Plus,
            Token::Minus => TokenKind::Minus,
            Token::Multiply => TokenKind::Multiply,
            Token::Divide => TokenKind::Divide,
            Token::Semicolon => TokenKind::Semicolon,
            Token::LeftParen => TokenKind::LeftParen,
            Token::RightParen => TokenKind::RightParen,
            Token::LeftBrace => TokenKind::LeftBrace,
            Token::RightBrace => TokenKind::RightBrace,
            Token::EOF => TokenKind::EOF,
            Token::Illegal(_) => TokenKind::Illegal,
        }
    }

    /// A copy of this token with the same view.
    pub fn duplicate(&self) -> (r: Token)
        ensures
            r@ == self@,
    {
        match self {
            Token::Number(n) => Token::Number(*n),
            Token::Ident(s) => Token::Ident(s.clone()),
            Token::Let => Token::Let,
            Token::Equals => Token::Equals,
            Token::Plus => Token::Plus,
            Token::Minus => Token::Minus,
            Token::Multiply => Token::Multiply,
            Token::Divide => Token::Divide,
            Token::Semicolon => Token::Semicolon,
            Token::LeftParen => Token::LeftParen,
            Token::RightParen => Token::RightParen,
            Token::LeftBrace => Token::LeftBrace,
            Token::RightBrace => Token::RightBrace,
            Token::EOF => Token::EOF,
            Token::Illegal(c) => Token::Illegal(*c),
        }
    }
}

impl PartialEq for Token {
    fn eq(&self, o: &Token) -> (r: bool) {
        match (self, o) {
            (Token::Number(a), Token::Number(b)) => *a == *b,
            (Token::Ident(a), Token::Ident(b)) => *a == *b,
            (Token::Illegal(a), Token::Illegal(b)) => *a == *b,
            (Token::Number(_), _) | (Token::Ident(_), _) | (Token::Illegal(_), _) => false,
            _ => {
                let r = self.kind() == o.kind();
                assert(r == (self@ == o@)) by {
                    assert(kind_of(self@) == kind_of(o@) ==> self@ == o@);
                }
                r
            },
        }
    }
}

impl vstd::std_specs::cmp::PartialEqSpecImpl for Token {
    open spec fn obeys_eq_spec() -> bool {
        true
    }

    open spec fn eq_spec(&self, o: &Token) -> bool {
        self@ == o@
    }
}

/// Error conditions of scanning a literal.
#[derive(Debug)]
pub enum LexError {
    InvalidNumber(String),
    UnterminatedString,
}

/// Name for `char::is_whitespace`: the Unicode White_Space property.
pub uninterp spec fn space_char(c: char) -> bool;

/// Name for `char::is_alphanumeric`: the Unicode Alphabetic or Numeric property.
pub uninterp spec fn alnum_char(c: char) -> bool;

/// Relies on `char::is_whitespace`, a function of the character alone.
#[verifier::external_body]
fn is_space(c: char) -> (r: bool)
    ensures
        r == space_char(c),
{
    c.is_whitespace()
}

/// Relies on `char::is_alphanumeric`, a function of the character alone.
#[verifier::external_body]
fn is_alnum(c: char) -> (r: bool)
    ensures
        r == alnum_char(c),
{
    c.is_alphanumeric()
}

/// Relies on `String::push`: appends one character.
#[verifier::external_body]
pub(crate) fn push_char(s: &mut String, c: char)
    ensures
        final(s)@ == old(s)@.push(c),
{
    s.push(c);
}

pub open spec fn is_digit(c: char) -> bool {
    '0' <= c <= '9'
}

pub open spec fn ident_start(c: char) -> bool {
    ('a' <= c <= 'z') || ('A' <= c <= 'Z') || c == '_'
}

pub open spec fn word_char(c: char) -> bool {
    alnum_char(c) || c == '_'
}

/// The first position at or after `i` that holds no whitespace.
pub open spec fn skip_space(s: Seq<char>, i: int) -> int
    decreases s.len() - i,
{
    if 0 <= i < s.len() && space_char(s[i]) {
        skip_space(s, i + 1)
    } else {
        i
    }
}

/// The end of the run of decimal digits that starts at `i`.
pub open spec fn digits_end(s: Seq<char>, i: int) -> int
    decreases s.len() - i,
{
    if 0 <= i < s.len() && is_digit(s[i]) {
        digits_end(s, i + 1)
    } else {
        i
    }
}

/// The end of the run of word characters that starts at `i`.
pub open spec fn word_end(s: Seq<char>, i: int) -> int
    decreases s.len() - i,
{
    if 0 <= i < s.len() && word_char(s[i]) {
        word_end(s, i + 1)
    } else {
        i
    }
}

/// The base-10 value of a run of digits.
pub open spec fn digits_value(w: Seq<char>) -> int
    decreases w.len(),
{
    if w.len() == 0 {
        0
    } else {
        digits_value(w.drop_last()) * 10 + (w.last() as int - '0' as int)
    }
}

/// The token of a single-character operator or delimiter.
pub open spec fn punct(c: char) -> Option<Lexeme> {
    if c == '=' {
        Some(Lexeme::Equals)
    } else if c == '+' {
        Some(Lexeme::Plus)
    } else if c == '-' {
        Some(Lexeme::Minus)
    } else if c == '*' {
        Some(Lexeme::Multiply)
    } else if c == '/' {
        Some(Lexeme::Divide)
    } else if c == ';' {
        Some(Lexeme::Semicolon)
    } else if c == '(' {
        Some(Lexeme::LeftParen)
    } else if c == ')' {
        Some(Lexeme::RightParen)
    } else if c == '{' {
        Some(Lexeme::LeftBrace)
    } else if c == '}' {
        Some(Lexeme::RightBrace)
    } else {
        None
    }
}

/// A word (its first character is a letter or `_`) is the keyword `let`, or else an identifier.
pub open spec fn word_lexeme(w: Seq<char>) -> Lexeme {
    if w =~= seq!['l', 'e', 't'] {
        Lexeme::Let
    } else {
        Lexeme::Ident(w)
    }
}

/// The token scanned at position `i` of `s`, and the position after it.
/// A digit run whose value does not fit in `i64` is consumed whole and
/// yields one `Illegal` token that carries its first digit.
pub open spec fn scan(s: Seq<char>, i: int) -> (Lexeme, int) {
    let j = skip_space(s, i);
    if j >= s.len() {
        (Lexeme::EOF, j)
    } else {
        let c = s[j];
        if punct(c) is Some {
            (punct(c)->0, j + 1)
        } else if is_digit(c) {
            let e = digits_end(s, j);
            let v = digits_value(s.subrange(j, e));
            if v <= i64::MAX {
                (Lexeme::Number(v as i64), e)
            } else {
                (Lexeme::Illegal(c), e)
            }
        } else if ident_start(c) {
            let e = word_end(s, j + 1);
            (word_lexeme(s.subrange(j, e)), e)
        } else {
            (Lexeme::Illegal(c), j + 1)
        }
    }
}

pub proof fn lemma_runs_bounded(s: Seq<char>, i: int)
    requires
        0 <= i <= s.len(),
    ensures
        i <= skip_space(s, i) <= s.len(),
        i <= digits_end(s, i) <= s.len(),
        i <= word_end(s, i) <= s.len(),
        i < s.len() && is_digit(s[i]) ==> i < digits_end(s, i),
    decreases s.len() - i,
{
    if i < s.len() {
        lemma_runs_bounded(s, i + 1);
    }
}

/// Scanning stays within the input, and every token but the end advances.
pub proof fn lemma_scan_advances(s: Seq<char>, i: int)
    requires
        0 <= i <= s.len(),
    ensures
        i <= scan(s, i).1 <= s.len(),
        scan(s, i).0 is EOF <==> scan(s, i).1 == skip_space(s, i) == s.len(),
        !(scan(s, i).0 is EOF) ==> i < scan(s, i).1,
{
    lemma_runs_bounded(s, i);
    let j = skip_space(s, i);
    if j < s.len() {
        lemma_runs_bounded(s, j);
        lemma_runs_bounded(s, j + 1);
    }
}

#[via_fn]
proof fn scan_all_decreases(s: Seq<char>, i: int) {
    if 0 <= i <= s.len() {
        lemma_scan_advances(s, i);
    }
}

/// All tokens from position `i` on, up to and including the end token.
pub open spec fn scan_all(s: Seq<char>, i: int) -> Seq<Lexeme>
    decreases s.len() - i,
    when 0 <= i <= s.len()
    via scan_all_decreases
{
    let (t, n) = scan(s, i);
    if t is EOF {
        seq![t]
    } else {
        seq![t].add(scan_all(s, n))
    }
}

pub proof fn lemma_scan_all_nonempty(s: Seq<char>, i: int)
    requires
        0 <= i <= s.len(),
    ensures
        scan_all(s, i).len() >= 1,
        scan_all(s, i)[0] == scan(s, i).0,
{
}

/// Once the input is used up, scanning yields `EOF` and stays where it is.
pub proof fn lemma_end_repeats(s: Seq<char>)
    ensures
        scan(s, s.len() as int) == (Lexeme::EOF, s.len() as int),
{
}

/// A full scan ends with `EOF`, and holds no `EOF` before its end.
pub proof fn lemma_scan_all_ends(s: Seq<char>, i: int)
    requires
        0 <= i <= s.len(),
    ensures
        scan_all(s, i).len() >= 1,
        scan_all(s, i).last() is EOF,
        forall|k: int| 0 <= k < scan_all(s, i).len() - 1 ==> !(#[trigger] scan_all(s, i)[k] is EOF),
    decreases s.len() - i,
{
    lemma_scan_advances(s, i);
    let (t, n) = scan(s, i);
    if !(t is EOF) {
        lemma_scan_all_ends(s, n);
        let rest = scan_all(s, n);
        assert forall|k: int| 0 <= k < scan_all(s, i).len() - 1 implies !(
        #[trigger] scan_all(s, i)[k] is EOF) by {
            if k > 0 {
                assert(scan_all(s, i)[k] == rest[k - 1]);
            }
        }
    }
}

/// The tokens of a whole text.
pub open spec fn tokens_of(s: Seq<char>) -> Seq<Lexeme> {
    scan_all(s, 0)
}

/// A scanner over one text; it hands out tokens one at a time.
pub struct Lexer {
    input: Vec<char>,
    position: usize,
    current_char: Option<char>,
}

impl Lexer {
    /// The characters being scanned.
    pub closed spec fn text(&self) -> Seq<char> {
        self.input@
    }

    /// The index of the next character to scan.
    pub closed spec fn pos(&self) -> int {
        self.position as int
    }

    pub closed spec fn wf(&self) -> bool {
        &&& self.position <= self.input@.len()
        &&& self.current_char == if self.position < self.input@.len() {
            Some(self.input@[self.position as int])
        } else {
            None::<char>
        }
    }

    pub fn new(input: &str) -> (r: Lexer)
        ensures
            r.wf(),
            r.text() == input@,
            r.pos() == 0,
    {
        let n = input.unicode_len();
        let mut chars: Vec<char> = Vec::new();
        let mut i: usize = 0;
        while i < n
            invariant
                n == input@.len(),
                i <= n,
                chars@ == input@.subrange(0, i as int),
            decreases n - i,
        {
            chars.push(input.get_char(i));
            i = i + 1;
            assert(chars@ =~= input@.subrange(0, i as int));
        }
        assert(chars@ =~= input@);
        let current_char = if n > 0 {
            Some(chars[0])
        } else {
            None
        };
        Lexer { input: chars, position: 0, current_char }
    }

    /// The current character, without advancing.
    fn peek(&self) -> (r: Option<char>)
        ensures
            r == self.current_char,
    {
        self.current_char
    }

    /// Moves past the current character and returns it.
    fn advance(&mut self) -> (r: Option<char>)
        requires
            old(self).wf(),
            old(self).pos() < old(self).text().len(),
        ensures
            final(self).wf(),
            final(self).text() == old(self).text(),
            final(self).pos() == old(self).pos() + 1,
            r == Some(old(self).text()[old(self).pos()]),
    {
        let current = self.current_char;
        let n = self.input.len();
        self.position = self.position + 1;
        self.current_char = if self.position < n {
            Some(self.input[self.position])
        } else {
            None
        };
        current
    }

    fn skip_whitespace(&mut self)
        requires
            old(self).wf(),
        ensures
            final(self).wf(),
            final(self).text() == old(self).text(),
            final(self).pos() == skip_space(old(self).text(), old(self).pos()),
    {
        loop
            invariant
                self.wf(),
                self.text() == old(self).text(),
                skip_space(self.text(), self.pos()) == skip_space(old(self).text(), old(self).pos()),
            decreases self.text().len() - self.pos(),
        {
            match self.peek() {
                Some(ch) => {
                    if is_space(ch) {
                        self.advance();
                    } else {
                        return;
                    }
                },
                None => {
                    return;
                },
            }
        }
    }

    /// Reads a maximal run of digits as a base-10 `i64`.
    fn read_number(&mut self) -> (r: Result<Token, LexError>)
        requires
            old(self).wf(),
            old(self).pos() < old(self).text().len(),
            is_digit(old(self).text()[old(self).pos()]),
        ensures
            final(self).wf(),
            final(self).text() == old(self).text(),
            final(self).pos() == digits_end(old(self).text(), old(self).pos()),
            ({
                let run = old(self).text().subrange(old(self).pos(), final(self).pos());
                match r {
                    Ok(t) => digits_value(run) <= i64::MAX && t@ == Lexeme::Number(
                        digits_value(run) as i64,
                    ),
                    Err(LexError::InvalidNumber(w)) => digits_value(run) > i64::MAX && w@ == run,
                    Err(LexError::UnterminatedString) => false,
                }
            }),
    {
        let ghost s = self.text();
        let ghost start = self.pos();
        let mut digits = String::new();
        let mut value: i64 = 0;
        let mut overflow = false;
        loop
            invariant
                self.wf(),
                self.text() == s,
                s == old(self).text(),
                start == old(self).pos(),
                0 <= start <= self.pos() <= s.len(),
                digits_end(s, self.pos()) == digits_end(s, start),
                digits@ == s.subrange(start, self.pos()),
                value >= 0,
                !overflow ==> value as int == digits_value(s.subrange(start, self.pos())),
                overflow ==> digits_value(s.subrange(start, self.pos())) > i64::MAX,
            ensures
                digits_end(s, self.pos()) == self.pos(),
            decreases s.len() - self.pos(),
        {
            let ch = match self.peek() {
                Some(c) => c,
                None => {
                    break ;
                },
            };
            if !('0' <= ch && ch <= '9') {
                assert(digits_end(s, self.pos()) == self.pos());
                break ;
            }
            assert(self.pos() < s.len());
            assert(s[self.pos()] == ch);
            let ghost before = s.subrange(start, self.pos());
            let ghost after = s.subrange(start, self.pos() + 1);
            assert(after.drop_last() =~= before);
            let d = ((ch as u32) - ('0' as u32)) as i64;
            assert(0 <= d <= 9);
            if overflow {
                assert(digits_value(after) > i64::MAX) by (nonlinear_arith)
                    requires
                        digits_value(after) == digits_value(before) * 10 + d,
                        digits_value(before) > i64::MAX,
                        d >= 0,
                ;
            } else if value > (i64::MAX - d) / 10 {
                overflow = true;
                assert(digits_value(after) > i64::MAX) by (nonlinear_arith)
                    requires
                        digits_value(after) == value * 10 + d,
                        value > (i64::MAX - d) / 10,
                        0 <= d <= 9,
                ;
            } else {
                assert(value * 10 + d <= i64::MAX) by (nonlinear_arith)
                    requires
                        value <= (i64::MAX - d) / 10,
                        0 <= value,
                        0 <= d <= 9,
                ;
                value = value * 10 + d;
            }
            push_char(&mut digits, ch);
            self.advance();
            assert(digits@ =~= s.subrange(start, self.pos()));
        }
        if overflow {
            Err(LexError::InvalidNumber(digits))
        } else {
            Ok(Token::Number(value))
        }
    }

    /// Reads an identifier, or the keyword `let`.
    fn read_identifier(&mut self) -> (t: Token)
        requires
            old(self).wf(),
            old(self).pos() < old(self).text().len(),
            ident_start(old(self).text()[old(self).pos()]),
        ensures
            final(self).wf(),
            final(self).text() == old(self).text(),
            final(self).pos() == word_end(old(self).text(), old(self).pos() + 1),
            t@ == word_lexeme(old(self).text().subrange(old(self).pos(), final(self).pos())),
    {
        let ghost s = self.text();
        let start = self.position;
        let mut word = String::new();
        let first = self.advance();
        match first {
            Some(c) => push_char(&mut word, c),
            None => {},
        }
        assert(word@ =~= s.subrange(start as int, self.pos()));
        loop
            invariant
                self.wf(),
                self.text() == s,
                s == old(self).text(),
                start == old(self).pos(),
                start < self.pos() <= s.len(),
                word_end(s, self.pos()) == word_end(s, start + 1),
                word@ == s.subrange(start as int, self.pos()),
            ensures
                word_end(s, self.pos()) == self.pos(),
            decreases s.len() - self.pos(),
        {
            let ch = match self.peek() {
                Some(c) => c,
                None => {
                    break ;
                },
            };
            if !(is_alnum(ch) || ch == '_') {
                assert(word_end(s, self.pos()) == self.pos());
                break ;
            }
            push_char(&mut word, ch);
            self.advance();
            assert(word@ =~= s.subrange(start as int, self.pos()));
        }
        let len = self.position - start;
        if len == 3 && self.input[start] == 'l' && self.input[start + 1] == 'e' && self.input[start
            + 2] == 't' {
            assert(word@ =~= seq!['l', 'e', 't']);
            Token::Let
        } else {
            assert(!(word@ =~= seq!['l', 'e', 't'])) by {
                if word@ =~= seq!['l', 'e', 't'] {
                    assert(word@[0] == s[start as int]);
                    assert(word@[1] == s[start + 1]);
                    assert(word@[2] == s[start + 2]);
                }
            }
            Token::Ident(word)
        }
    }

    /// Scans the next token; at the end of the input it returns `EOF`, again and again.
    pub fn next_token(&mut self) -> (t: Token)
        requires
            old(self).wf(),
        ensures
            final(self).wf(),
            final(self).text() == old(self).text(),
            (t@, final(self).pos()) == scan(old(self).text(), old(self).pos()),
    {
        self.skip_whitespace();
        proof {
            lemma_runs_bounded(self.text(), old(self).pos());
        }
        match self.peek() {
            None => Token::EOF,
            Some(ch) => match ch {
                '=' => {
                    self.advance();
                    Token::Equals
                },
                '+' => {
                    self.advance();
                    Token::Plus
                },
                '-' => {
                    self.advance();
                    Token::Minus
                },
                '*' => {
                    self.advance();
                    Token::Multiply
                },
                '/' => {
                    self.advance();
                    Token::Divide
                },
                ';' => {
                    self.advance();
                    Token::Semicolon
                },
                '(' => {
                    self.advance();
                    Token::LeftParen
                },
                ')' => {
                    self.advance();
                    Token::RightParen
                },
                '{' => {
                    self.advance();
                    Token::LeftBrace
                },
                '}' => {
                    self.advance();
                    Token::RightBrace
                },
                '0'..='9' => match self.read_number() {
                    Ok(token) => token,
                    Err(_) => Token::Illegal(ch),
                },
                'a'..='z' | 'A'..='Z' | '_' => self.read_identifier(),
                _ => {
                    self.advance();
                    Token::Illegal(ch)
                },
            },
        }
    }

    /// All remaining tokens, ending with `EOF`.
    pub fn tokenize(&mut self) -> (tokens: Vec<Token>)
        requires
            old(self).wf(),
        ensures
            final(self).wf(),
            final(self).text() == old(self).text(),
            lexemes(tokens@) == scan_all(old(self).text(), old(self).pos()),
    {
        let ghost s = self.text();
        let mut tokens: Vec<Token> = Vec::new();
        loop
            invariant_except_break
                lexemes(tokens@) + scan_all(s, self.pos()) == scan_all(s, old(self).pos()),
            invariant
                self.wf(),
                self.text() == s,
                s == old(self).text(),
            ensures
                lexemes(tokens@) == scan_all(s, old(self).pos()),
            decreases s.len() - self.pos(),
        {
            let ghost p = self.pos();
            let ghost before = tokens@;
            proof {
                lemma_scan_advances(s, p);
            }
            let token = self.next_token();
            let is_eof = token.kind() == TokenKind::EOF;
            tokens.push(token);
            assert(lexemes(tokens@) =~= lexemes(tokens@.drop_last()).push(token@));
            assert(tokens@.drop_last() =~= before);
            if is_eof {
                assert(scan_all(s, p) == seq![token@]);
                assert(lexemes(tokens@) =~= scan_all(s, old(self).pos()));
                break ;
            }
            assert(scan_all(s, p) == seq![token@] + scan_all(s, self.pos()));
            assert(lexemes(tokens@) + scan_all(s, self.pos()) =~= lexemes(before) + scan_all(s, p));
        }
        tokens
    }

    /// The next token, or `None` once the input is used up.
    pub fn next(&mut self) -> (r: Option<Token>)
        requires
            old(self).wf(),
        ensures
            final(self).wf(),
            final(self).text() == old(self).text(),
            final(self).pos() == scan(old(self).text(), old(self).pos()).1,
            match r {
                None => scan(old(self).text(), old(self).pos()).0 is EOF,
                Some(t) => t@ == scan(old(self).text(), old(self).pos()).0 && !(t@ is EOF),
            },
    {
        let token = self.next_token();
        if token.kind() == TokenKind::EOF {
            None
        } else {
            Some(token)
        }
    }

    /// All remaining tokens, without the final `EOF`.
    pub fn collect(self) -> (tokens: Vec<Token>)
        requires
            self.wf(),
        ensures
            lexemes(tokens@) == scan_all(self.text(), self.pos()).drop_last(),
    {
        let mut lexer = self;
        let mut tokens = lexer.tokenize();
        proof {
            lemma_scan_all_nonempty(self.text(), self.pos());
        }
        tokens.pop();
        assert(lexemes(tokens@) =~= scan_all(self.text(), self.pos()).drop_last());
        tokens
    }

    /// The index of the next character to scan.
    pub fn position(&self) -> (r: usize)
        ensures
            r == self.pos(),
    {
        self.position
    }

    /// Whether no character is left to scan.
    pub fn is_at_end(&self) -> (r: bool)
        requires
            self.wf(),
        ensures
            r == (self.pos() >= self.text().len()),
    {
        self.current_char.is_none()
    }
}

/// Scans a whole text; malformed input shows as `Illegal` tokens.
pub fn tokenize(text: &str) -> (tokens: Vec<Token>)
    ensures
        lexemes(tokens@) == tokens_of(text@),
{
    let mut lexer = Lexer::new(text);
    lexer.tokenize()
}

} // verus!
