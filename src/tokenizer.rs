use vstd::prelude::*;

verus! {

/// A lexical unit of the language.
#[derive(Debug, PartialEq, Clone)]
pub enum Token {
    Plus,
    Minus,
    Mul,
    Div,
    Mod,
    LParen,
    RParen,
    LBrace,
    RBrace,
    LBracket,
    RBracket,
    Equal,
    EqualEqual,
    Greater,
    GreaterEqual,
    Less,
    LessEqual,
    SemiColon,
    Comma,
    Ampersand,
    Arrow,
    /// A numeric literal, kept as the exact text of the literal
    /// (digits and at most one dot).
    Number(String),
    Identifier(String),
    Function,
    While,
    Invalid,
}

/// The mathematical content of a token: the payload of a literal or a name
/// is its character sequence.
pub enum Lexeme {
    Symbol(Token),
    Number(Seq<char>),
    Identifier(Seq<char>),
}

impl Token {
    pub open spec fn lexeme(self) -> Lexeme {
        match self {
            Token::Number(t) => Lexeme::Number(t@),
            Token::Identifier(n) => Lexeme::Identifier(n@),
            _ => Lexeme::Symbol(self),
        }
    }
}

pub open spec fn lexemes(ts: Seq<Token>) -> Seq<Lexeme> {
    ts.map_values(|t: Token| t.lexeme())
}

/// Why a source text could not be split into tokens.
pub enum LexError {
    SecondDot,
    InvalidNumber,
}

impl LexError {
    pub open spec fn text(self) -> Seq<char> {
        match self {
            LexError::SecondDot => "Found second dot in a number."@,
            LexError::InvalidNumber => "invalid float literal"@,
        }
    }
}

/// The White_Space property of Unicode.
pub open spec fn white_space(c: char) -> bool {
    let u = c as u32;
    (9 <= u && u <= 13) || u == 32 || u == 0x85 || u == 0xa0 || u == 0x1680
        || (0x2000 <= u && u <= 0x200a) || u == 0x2028 || u == 0x2029 || u == 0x202f
        || u == 0x205f || u == 0x3000
}

/// The Alphabetic property of Unicode, outside ASCII.
pub uninterp spec fn non_ascii_alphabetic(c: char) -> bool;

/// The Alphabetic property of Unicode: among ASCII characters, the letters.
pub open spec fn alphabetic(c: char) -> bool {
    if (c as u32) < 128 {
        ascii_letter(c)
    } else {
        non_ascii_alphabetic(c)
    }
}

pub open spec fn ascii_letter(c: char) -> bool {
    ('a' <= c && c <= 'z') || ('A' <= c && c <= 'Z')
}

pub open spec fn decimal_digit(c: char) -> bool {
    '0' <= c && c <= '9'
}

pub open spec fn number_char(c: char) -> bool {
    decimal_digit(c) || c == '.'
}

pub open spec fn word_start(c: char) -> bool {
    alphabetic(c) || c == '_'
}

pub open spec fn word_char(c: char) -> bool {
    alphabetic(c) || decimal_digit(c) || c == '_'
}

/// The character under the cursor; `'\0'` past the end.
pub open spec fn char_at(s: Seq<char>, p: int) -> char {
    if 0 <= p < s.len() {
        s[p]
    } else {
        '\0'
    }
}

/// The token that a character stands for on its own, if it does.
pub open spec fn single_char_token(c: char) -> Option<Token> {
    if c == '+' {
        Some(Token::Plus)
    } else if c == '*' {
        Some(Token::Mul)
    } else if c == '/' {
        Some(Token::Div)
    } else if c == '%' {
        Some(Token::Mod)
    } else if c == '(' {
        Some(Token::LParen)
    } else if c == ')' {
        Some(Token::RParen)
    } else if c == '[' {
        Some(Token::LBracket)
    } else if c == ']' {
        Some(Token::RBracket)
    } else if c == '{' {
        Some(Token::LBrace)
    } else if c == '}' {
        Some(Token::RBrace)
    } else if c == ';' {
        Some(Token::SemiColon)
    } else if c == ',' {
        Some(Token::Comma)
    } else if c == '&' {
        Some(Token::Ampersand)
    } else {
        None
    }
}

/// A character that starts a token of one or two characters: the token for
/// the character alone, and the one for the character followed by `second`.
pub open spec fn pair_token(c: char) -> Option<(char, Token, Token)> {
    if c == '-' {
        Some(('>', Token::Minus, Token::Arrow))
    } else if c == '=' {
        Some(('=', Token::Equal, Token::EqualEqual))
    } else if c == '>' {
        Some(('=', Token::Greater, Token::GreaterEqual))
    } else if c == '<' {
        Some(('=', Token::Less, Token::LessEqual))
    } else {
        None
    }
}

/// The lexeme of a word: a keyword or a name.
pub open spec fn word_lexeme(w: Seq<char>) -> Lexeme {
    if w == "fn"@ {
        Lexeme::Symbol(Token::Function)
    } else if w == "while"@ {
        Lexeme::Symbol(Token::While)
    } else {
        Lexeme::Identifier(w)
    }
}

/// Where the scanner stands between two characters.
pub enum LexMode {
    /// Between tokens: the input may end here.
    Start,
    /// Between tokens, after the end check: whitespace is skipped here.
    Scan,
    /// Inside a numeric literal that began at `start`.
    InNumber { start: int, dot: bool },
    /// Inside a word that began at `start`.
    InWord { start: int },
}

pub open spec fn mode_rank(m: LexMode) -> nat {
    match m {
        LexMode::Scan => 0,
        LexMode::Start => 1,
        _ => 2,
    }
}

/// The scanner as a machine that reads one character of `s` at a time,
/// at position `p` in mode `m`, with the lexemes `acc` found so far.
pub open spec fn lex_at(s: Seq<char>, p: int, m: LexMode, acc: Seq<Lexeme>) -> Result<
    Seq<Lexeme>,
    LexError,
>
    decreases s.len() - p, mode_rank(m),
{
    let c = char_at(s, p);
    if p < 0 || p > s.len() {
        Ok(acc)
    } else {
        match m {
            LexMode::Start => {
                if p == s.len() {
                    Ok(acc)
                } else {
                    lex_at(s, p, LexMode::Scan, acc)
                }
            },
            LexMode::Scan => {
                if p == s.len() {
                    Ok(acc)
                } else if white_space(c) {
                    lex_at(s, p + 1, LexMode::Scan, acc)
                } else if single_char_token(c) is Some {
                    lex_at(s, p + 1, LexMode::Start, acc.push(Lexeme::Symbol(single_char_token(c)->0)))
                } else if pair_token(c) is Some {
                    let (second, one, two) = pair_token(c)->0;
                    if char_at(s, p + 1) == second {
                        lex_at(s, p + 2, LexMode::Start, acc.push(Lexeme::Symbol(two)))
                    } else {
                        lex_at(s, p + 1, LexMode::Start, acc.push(Lexeme::Symbol(one)))
                    }
                } else if number_char(c) {
                    lex_at(s, p + 1, LexMode::InNumber { start: p, dot: c == '.' }, acc)
                } else if word_start(c) {
                    lex_at(s, p + 1, LexMode::InWord { start: p }, acc)
                } else {
                    lex_at(s, p + 1, LexMode::Start, acc)
                }
            },
            LexMode::InNumber { start, dot } => {
                if number_char(c) {
                    if c == '.' && dot {
                        Err(LexError::SecondDot)
                    } else {
                        lex_at(s, p + 1, LexMode::InNumber { start, dot: dot || c == '.' }, acc)
                    }
                } else if s.subrange(start, p) == seq!['.'] {
                    Err(LexError::InvalidNumber)
                } else {
                    lex_at(s, p, LexMode::Start, acc.push(Lexeme::Number(s.subrange(start, p))))
                }
            },
            LexMode::InWord { start } => {
                if p < s.len() && word_char(c) {
                    lex_at(s, p + 1, LexMode::InWord { start }, acc)
                } else {
                    lex_at(s, p, LexMode::Start, acc.push(word_lexeme(s.subrange(start, p))))
                }
            },
        }
    }
}

/// The lexemes of a whole source text, or the first lexical error in it.
pub open spec fn lex(s: Seq<char>) -> Result<Seq<Lexeme>, LexError> {
    lex_at(s, 0, LexMode::Start, Seq::empty())
}

/// Whether a character has the White_Space property.
fn is_white_space(c: char) -> (r: bool)
    ensures
        r == white_space(c),
{
    let u = c as u32;
    (9 <= u && u <= 13) || u == 32 || u == 0x85 || u == 0xa0 || u == 0x1680 || (0x2000 <= u && u <= 0x200a)
        || u == 0x2028 || u == 0x2029 || u == 0x202f || u == 0x205f || u == 0x3000
}

/// Relies on char::is_alphabetic: its result depends on the character alone,
/// and among ASCII characters only the letters are alphabetic.
#[verifier::external_body]
fn is_alphabetic(c: char) -> (r: bool)
    ensures
        (c as u32) < 128 ==> r == ascii_letter(c),
        (c as u32) >= 128 ==> r == non_ascii_alphabetic(c),
{
    c.is_alphabetic()
}

/// Relies on str::chars, collected into a vector: the characters in order.
#[verifier::external_body]
pub(crate) fn chars_of(s: &str) -> (r: Vec<char>)
    ensures
        r@ == s@,
{
    s.chars().collect()
}

/// Relies on String::push: appends one character.
#[verifier::external_body]
pub(crate) fn push_char(s: &mut String, c: char)
    ensures
        final(s)@ == old(s)@.push(c),
{
    s.push(c);
}

fn is_digit(c: char) -> (r: bool)
    ensures
        r == decimal_digit(c),
{
    '0' <= c && c <= '9'
}

fn single_token(c: char) -> (r: Option<Token>)
    ensures
        r == single_char_token(c),
{
    if c == '+' {
        Some(Token::Plus)
    } else if c == '*' {
        Some(Token::Mul)
    } else if c == '/' {
        Some(Token::Div)
    } else if c == '%' {
        Some(Token::Mod)
    } else if c == '(' {
        Some(Token::LParen)
    } else if c == ')' {
        Some(Token::RParen)
    } else if c == '[' {
        Some(Token::LBracket)
    } else if c == ']' {
        Some(Token::RBracket)
    } else if c == '{' {
        Some(Token::LBrace)
    } else if c == '}' {
        Some(Token::RBrace)
    } else if c == ';' {
        Some(Token::SemiColon)
    } else if c == ',' {
        Some(Token::Comma)
    } else if c == '&' {
        Some(Token::Ampersand)
    } else {
        None
    }
}

fn pair_tokens(c: char) -> (r: Option<(char, Token, Token)>)
    ensures
        r == pair_token(c),
{
    if c == '-' {
        Some(('>', Token::Minus, Token::Arrow))
    } else if c == '=' {
        Some(('=', Token::Equal, Token::EqualEqual))
    } else if c == '>' {
        Some(('=', Token::Greater, Token::GreaterEqual))
    } else if c == '<' {
        Some(('=', Token::Less, Token::LessEqual))
    } else {
        None
    }
}

/// The token for the word `code[start..end]`, whose text is `word`.
fn word_token(code: &Vec<char>, start: usize, end: usize, word: String) -> (t: Token)
    requires
        start <= end <= code@.len(),
        word@ == code@.subrange(start as int, end as int),
    ensures
        t.lexeme() == word_lexeme(code@.subrange(start as int, end as int)),
{
    proof {
        reveal_strlit("fn");
        reveal_strlit("while");
    }
    let ghost w = code@.subrange(start as int, end as int);
    if end - start == 2 && code[start] == 'f' && code[start + 1] == 'n' {
        assert(w =~= "fn"@);
        Token::Function
    } else if end - start == 5 && code[start] == 'w' && code[start + 1] == 'h' && code[start + 2]
        == 'i' && code[start + 3] == 'l' && code[start + 4] == 'e' {
        assert(w =~= "while"@);
        Token::While
    } else {
        assert(w.len() == end - start);
        assert(w != "fn"@ && w != "while"@) by {
            assert("fn"@.len() == 2 && "fn"@[0] == 'f' && "fn"@[1] == 'n');
            assert("while"@.len() == 5 && "while"@[0] == 'w' && "while"@[1] == 'h' && "while"@[2] == 'i' && "while"@[3] == 'l' && "while"@[4] == 'e');
            if w == "fn"@ {
                assert(w[0] == 'f' && w[1] == 'n');
            }
            if w == "while"@ {
                assert(w[0] == 'w' && w[1] == 'h' && w[2] == 'i' && w[3] == 'l' && w[4] == 'e');
            }
        }
        Token::Identifier(word)
    }
}

/// Whitespace between two positions leaves the scan unchanged.
proof fn lemma_skip_white_space(s: Seq<char>, p: int, q: int, acc: Seq<Lexeme>)
    requires
        0 <= p <= q <= s.len(),
        forall|i: int| p <= i < q ==> white_space(#[trigger] s[i]),
    ensures
        lex_at(s, p, LexMode::Scan, acc) == lex_at(s, q, LexMode::Scan, acc),
    decreases q - p,
{
    if p < q {
        lemma_skip_white_space(s, p + 1, q, acc);
    }
}

/// Splits a source text into tokens.
pub fn tokenize(source: &str) -> (r: Result<Vec<Token>, String>)
    ensures
        match lex(source@) {
            Ok(ls) => r is Ok && lexemes(r->Ok_0@) == ls,
            Err(e) => r is Err && r->Err_0@ == e.text(),
        },
{
    let mut t = Tokenizer::new(source);
    t.tokenize()
}

/// A cursor over the characters of a source text.
pub struct Tokenizer {
    index: usize,
    current_char: char,
    code: Vec<char>,
    /// Whether the first character has been read.
    started: bool,
}

impl Tokenizer {
    /// The characters being scanned.
    pub closed spec fn text(&self) -> Seq<char> {
        self.code@
    }

    /// The position of the current character: -1 before the first one has
    /// been read, the text's length once past its end.
    pub closed spec fn position(&self) -> int {
        if self.started {
            self.index as int
        } else {
            -1
        }
    }

    pub closed spec fn current(&self) -> char {
        self.current_char
    }

    pub closed spec fn wf(&self) -> bool {
        &&& self.index <= self.code@.len()
        &&& self.current_char == char_at(self.code@, self.position())
        &&& !self.started ==> self.index == 0
    }

    /// Where the cursor stands after one more step.
    pub open spec fn next_position(&self) -> int {
        if self.position() < self.text().len() {
            self.position() + 1
        } else {
            self.position()
        }
    }

    pub fn new(code: &str) -> (t: Tokenizer)
        ensures
            t.wf(),
            t.text() == code@,
            t.position() == -1,
            t.current() == '\0',
    {
        let chars = chars_of(code);
        Tokenizer { index: 0, current_char: '\0', code: chars, started: false }
    }

    /// Moves the cursor one character on; it stays at the end once there.
    pub fn next_char(&mut self)
        requires
            old(self).wf(),
        ensures
            final(self).wf(),
            final(self).text() == old(self).text(),
            final(self).current() == char_at(final(self).text(), final(self).position()),
            final(self).position() == old(self).next_position(),
    {
        if !self.started {
            self.started = true;
        } else if self.index < self.code.len() {
            self.index = self.index + 1;
        }
        if self.index < self.code.len() {
            self.current_char = self.code[self.index];
        } else {
            self.current_char = '\0';
        }
    }

    /// The character after the current one (the first one before any has been
    /// read), or `'\0'` past the end.
    pub fn peek_char(&mut self) -> (c: char)
        requires
            old(self).wf(),
        ensures
            *final(self) == *old(self),
            c == char_at(old(self).text(), old(self).position() + 1),
    {
        if !self.started {
            if self.code.len() > 0 {
                self.code[0]
            } else {
                '\0'
            }
        } else if self.index < self.code.len() && self.index + 1 < self.code.len() {
            self.code[self.index + 1]
        } else {
            '\0'
        }
    }

    /// Steps to the next character and splits the text from there on into
    /// tokens.
    pub fn tokenize(&mut self) -> (r: Result<Vec<Token>, String>)
        requires
            old(self).wf(),
        ensures
            final(self).wf(),
            final(self).text() == old(self).text(),
            final(self).current() == char_at(final(self).text(), final(self).position()),
            match lex_at(old(self).text(), old(self).next_position(), LexMode::Start, Seq::empty()) {
                Ok(ls) => r is Ok && lexemes(r->Ok_0@) == ls,
                Err(e) => r is Err && r->Err_0@ == e.text(),
            },
    {
        self.next_char();
        let ghost s = self.code@;
        let ghost goal = lex_at(s, self.index as int, LexMode::Start, Seq::empty());
        let mut vector: Vec<Token> = Vec::new();
        assert(lexemes(vector@) =~= Seq::empty());
        while self.index < self.code.len()
            invariant
                self.wf(),
                self.code@ == s,
                s == old(self).code@,
                goal == lex_at(old(self).code@, old(self).next_position(), LexMode::Start, Seq::empty()),
                self.started,
                lex_at(s, self.index as int, LexMode::Start, lexemes(vector@)) == goal,
            decreases s.len() - self.index,
        {
            let ghost p0 = self.index as int;
            let ghost acc = lexemes(vector@);
            self.skip_whitespace();
            proof {
                lemma_skip_white_space(s, p0, self.index as int, acc);
            }
            let c = self.current_char;
            let start = self.index;
            if let Some(t) = single_token(c) {
                vector.push(t);
                assert(lexemes(vector@) =~= acc.push(t.lexeme()));
            } else if let Some((second, one, two)) = pair_tokens(c) {
                if self.peek_char() == second {
                    vector.push(two);
                    self.next_char();
                } else {
                    vector.push(one);
                }
                assert(lexemes(vector@) =~= acc.push(vector@.last().lexeme()));
            } else if is_digit(c) || c == '.' {
                let mut number_str = String::new();
                let mut dot = c == '.';
                push_char(&mut number_str, c);
                self.next_char();
                assert(number_str@ =~= s.subrange(start as int, self.index as int));
                while is_digit(self.current_char) || self.current_char == '.'
                    invariant
                        self.wf(),
                        self.code@ == s,
                        s == old(self).code@,
                        goal == lex_at(old(self).code@, old(self).next_position(), LexMode::Start, Seq::empty()),
                        self.started,
                        start < self.index,
                        number_str@ == s.subrange(start as int, self.index as int),
                        lex_at(s, self.index as int, LexMode::InNumber { start: start as int, dot }, acc)
                            == goal,
                    decreases s.len() - self.index,
                {
                    if self.current_char == '.' {
                        if dot {
                            return Err(<String as vstd::string::StringExecFns>::from_str("Found second dot in a number."));
                        }
                        dot = true;
                    }
                    push_char(&mut number_str, self.current_char);
                    self.next_char();
                    assert(number_str@ =~= s.subrange(start as int, self.index as int));
                }
                if self.index == start + 1 && self.code[start] == '.' {
                    assert(s.subrange(start as int, self.index as int) =~= seq!['.']);
                    return Err(<String as vstd::string::StringExecFns>::from_str("invalid float literal"));
                }
                assert(s.subrange(start as int, self.index as int) != seq!['.']) by {
                    if s.subrange(start as int, self.index as int) == seq!['.'] {
                        assert(s.subrange(start as int, self.index as int)[0] == s[start as int]);
                    }
                }
                vector.push(Token::Number(number_str));
                assert(lexemes(vector@) =~= acc.push(vector@.last().lexeme()));
                continue;
            } else if is_alphabetic(c) || c == '_' {
                let mut string = String::new();
                push_char(&mut string, c);
                self.next_char();
                assert(string@ =~= s.subrange(start as int, self.index as int));
                while is_alphabetic(self.current_char) || is_digit(self.current_char) || self.current_char == '_'
                    invariant
                        self.wf(),
                        self.code@ == s,
                        s == old(self).code@,
                        goal == lex_at(old(self).code@, old(self).next_position(), LexMode::Start, Seq::empty()),
                        self.started,
                        start < self.index,
                        string@ == s.subrange(start as int, self.index as int),
                        lex_at(s, self.index as int, LexMode::InWord { start: start as int }, acc) == goal,
                    decreases s.len() - self.index,
                {
                    push_char(&mut string, self.current_char);
                    self.next_char();
                    assert(string@ =~= s.subrange(start as int, self.index as int));
                }
                let t = word_token(&self.code, start, self.index, string);
                vector.push(t);
                assert(lexemes(vector@) =~= acc.push(t.lexeme()));
                continue;
            }
            self.next_char();
        }
        Ok(vector)
    }

    /// Moves the cursor past any whitespace.
    pub fn skip_whitespace(&mut self)
        requires
            old(self).wf(),
        ensures
            final(self).wf(),
            final(self).text() == old(self).text(),
            final(self).current() == char_at(final(self).text(), final(self).position()),
            old(self).position() <= final(self).position() <= final(self).text().len(),
            !white_space(final(self).current()),
            old(self).current() == char_at(old(self).text(), old(self).position()),
            !white_space(old(self).current()) ==> *final(self) == *old(self),
            forall|i: int|
                old(self).position() <= i < final(self).position() ==> white_space(
                    #[trigger] old(self).text()[i],
                ),
    {
        while is_white_space(self.current_char)
            invariant
                self.wf(),
                self.code@ == old(self).code@,
                old(self).position() <= self.position() <= self.code@.len(),
                self.started || *self == *old(self),
                !white_space(old(self).current_char) ==> *self == *old(self),
                forall|i: int| old(self).position() <= i < self.position() ==> white_space(#[trigger] self.code@[i]),
            decreases self.code@.len() - self.position(),
        {
            self.next_char();
        }
    }
}

} // verus!
