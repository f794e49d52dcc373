use vstd::prelude::*;

verus! {

/// Why tokenizing a line was abandoned.
#[derive(Debug, Clone, Copy, PartialEq, Eq, Structural)]
pub enum LexError {
    /// A run of digits and dots that is not a decimal numeral (more than one dot).
    InvalidNumber,
    /// A backslash inside a string literal was the last character of the input.
    UnterminatedEscape,
    /// A backslash inside a string literal was followed by a character with no escape meaning.
    UnrecognizedEscape,
}

/// One lexical unit.
///
/// A `Number` holds its numeral as written: an ASCII digit followed by digits and at
/// most one dot, which always reads as a decimal floating-point value.
#[derive(Debug, Clone, PartialEq)]
pub enum Token {
    Number(String),
    Punctuator(char),
    String(String),
    Symbol(String),
}

/// The mathematical value of a `Token`.
pub enum TokenModel {
    Number(Seq<char>),
    Punctuator(char),
    String(Seq<char>),
    Symbol(Seq<char>),
}

impl View for Token {
    type V = TokenModel;

    open spec fn view(&self) -> TokenModel {
        match self {
            Token::Number(n) => TokenModel::Number(n@),
            Token::Punctuator(c) => TokenModel::Punctuator(*c),
            Token::String(t) => TokenModel::String(t@),
            Token::Symbol(t) => TokenModel::Symbol(t@),
        }
    }
}

pub open spec fn is_digit(c: char) -> bool {
    '0' <= c && c <= '9'
}

/// ASCII whitespace: space, tab, line feed, form feed, carriage return.
pub open spec fn is_space(c: char) -> bool {
    c == ' ' || c == '\t' || c == '\n' || c == '\x0C' || c == '\r'
}

pub open spec fn is_punctuator(c: char) -> bool {
    c == '(' || c == ')' || c == '\''
}

pub open spec fn is_numeral_char(c: char) -> bool {
    is_digit(c) || c == '.'
}

/// The character that a backslash followed by `c` stands for inside a string literal.
pub open spec fn escaped(c: char) -> Option<char> {
    if c == '"' {
        Some('"')
    } else if c == 'n' {
        Some('\n')
    } else if c == 'r' {
        Some('\r')
    } else if c == 't' {
        Some('\t')
    } else if c == '\\' {
        Some('\\')
    } else {
        None
    }
}

/// Number of dots in `t`.
pub open spec fn count_dots(t: Seq<char>) -> nat
    decreases t.len(),
{
    if t.len() == 0 {
        0
    } else {
        count_dots(t.drop_last()) + if t.last() == '.' { 1nat } else { 0nat }
    }
}

/// End of the maximal run of digits and dots that starts at `i`.
pub open spec fn numeral_end(s: Seq<char>, i: int) -> int
    decreases s.len() - i,
{
    if 0 <= i < s.len() && is_numeral_char(s[i]) {
        numeral_end(s, i + 1)
    } else {
        i
    }
}

/// End of the maximal run without punctuators or whitespace that starts at `i`.
pub open spec fn symbol_end(s: Seq<char>, i: int) -> int
    decreases s.len() - i,
{
    if 0 <= i < s.len() && !is_punctuator(s[i]) && !is_space(s[i]) {
        symbol_end(s, i + 1)
    } else {
        i
    }
}

/// The body of a string literal read from `k` on, after `acc` was already read: the
/// contents with escapes resolved, and the position just past the closing quote (or
/// the end of the input when the quote never comes).
pub open spec fn string_body(s: Seq<char>, k: int, acc: Seq<char>) -> Result<(Seq<char>, int), LexError>
    decreases s.len() - k,
{
    if k < 0 || k >= s.len() {
        Ok((acc, s.len() as int))
    } else if s[k] == '"' {
        Ok((acc, k + 1))
    } else if s[k] == '\\' {
        if k + 1 >= s.len() {
            Err(LexError::UnterminatedEscape)
        } else {
            match escaped(s[k + 1]) {
                Some(e) => string_body(s, k + 2, acc.push(e)),
                None => Err(LexError::UnrecognizedEscape),
            }
        }
    } else {
        string_body(s, k + 1, acc.push(s[k]))
    }
}

/// The token that starts at or after `i`, skipping whitespace, with the position
/// after it; `None` when only whitespace is left.
pub open spec fn next_token(s: Seq<char>, i: int) -> Result<Option<(TokenModel, int)>, LexError>
    decreases s.len() - i,
{
    if i < 0 || i >= s.len() {
        Ok(None)
    } else {
        let c = s[i];
        if is_digit(c) {
            let j = numeral_end(s, i);
            let t = s.subrange(i, j);
            if count_dots(t) <= 1 {
                Ok(Some((TokenModel::Number(t), j)))
            } else {
                Err(LexError::InvalidNumber)
            }
        } else if c == '"' {
            match string_body(s, i + 1, seq![]) {
                Ok((b, e)) => Ok(Some((TokenModel::String(b), e))),
                Err(x) => Err(x),
            }
        } else if is_punctuator(c) {
            Ok(Some((TokenModel::Punctuator(c), i + 1)))
        } else if is_space(c) {
            next_token(s, i + 1)
        } else {
            let j = symbol_end(s, i);
            let after = if j < s.len() && is_space(s[j]) { j + 1 } else { j };
            Ok(Some((TokenModel::Symbol(s.subrange(i, j)), after)))
        }
    }
}

/// The outcome of one call of `Lexer::next`, positions left out.
pub open spec fn step_outcome(r: Result<Option<(TokenModel, int)>, LexError>) -> Result<Option<TokenModel>, LexError> {
    match r {
        Ok(Some((t, _))) => Ok(Some(t)),
        Ok(None) => Ok(None),
        Err(x) => Err(x),
    }
}

/// Where the cursor stands after one call of `Lexer::next` from `i`: past the token,
/// or at the end of the input once nothing is left or tokenizing failed.
pub open spec fn step_position(s: Seq<char>, i: int) -> int {
    match next_token(s, i) {
        Ok(Some((_, j))) => j,
        _ => s.len() as int,
    }
}

/// The tokens of `s` from position `i` on, or the error that stops tokenizing.
pub open spec fn tokens_from(s: Seq<char>, i: int) -> Result<Seq<TokenModel>, LexError>
    decreases s.len() - i,
{
    match next_token(s, i) {
        Err(x) => Err(x),
        Ok(None) => Ok(seq![]),
        Ok(Some((t, j))) => if i < j <= s.len() {
            match tokens_from(s, j) {
                Ok(ts) => Ok(seq![t] + ts),
                Err(x) => Err(x),
            }
        } else {
            Ok(seq![])
        },
    }
}

/// The tokens of a whole line.
pub open spec fn lex(s: Seq<char>) -> Result<Seq<TokenModel>, LexError> {
    tokens_from(s, 0)
}

pub open spec fn token_views(v: Seq<Token>) -> Seq<TokenModel> {
    v.map_values(|t: Token| t@)
}

pub open spec fn next_view(r: Result<Option<Token>, LexError>) -> Result<Option<TokenModel>, LexError> {
    match r {
        Ok(Some(t)) => Ok(Some(t@)),
        Ok(None) => Ok(None),
        Err(x) => Err(x),
    }
}

pub open spec fn string_view(r: Result<(String, usize), LexError>) -> Result<(Seq<char>, int), LexError> {
    match r {
        Ok((t, e)) => Ok((t@, e as int)),
        Err(x) => Err(x),
    }
}

pub open spec fn tokens_view(r: Result<Vec<Token>, LexError>) -> Result<Seq<TokenModel>, LexError> {
    match r {
        Ok(v) => Ok(token_views(v@)),
        Err(x) => Err(x),
    }
}

fn is_digit_char(c: char) -> (r: bool)
    ensures
        r == is_digit(c),
{
    '0' <= c && c <= '9'
}

fn is_space_char(c: char) -> (r: bool)
    ensures
        r == is_space(c),
{
    c == ' ' || c == '\t' || c == '\n' || c == '\x0C' || c == '\r'
}

fn is_punctuator_char(c: char) -> (r: bool)
    ensures
        r == is_punctuator(c),
{
    c == '(' || c == ')' || c == '\''
}

/// Relies on String::push: the character is appended at the end.
#[verifier::external_body]
fn push_char(s: &mut String, c: char)
    ensures
        final(s)@ == old(s)@.push(c),
{
    s.push(c)
}

proof fn lemma_numeral_end(s: Seq<char>, i: int)
    requires
        0 <= i <= s.len(),
    ensures
        i <= numeral_end(s, i) <= s.len(),
        i < s.len() && is_digit(s[i]) ==> i < numeral_end(s, i),
    decreases s.len() - i,
{
    if i < s.len() && is_numeral_char(s[i]) {
        lemma_numeral_end(s, i + 1);
    }
}

proof fn lemma_symbol_end(s: Seq<char>, i: int)
    requires
        0 <= i <= s.len(),
    ensures
        i <= symbol_end(s, i) <= s.len(),
        forall|k: int| i <= k < symbol_end(s, i) ==> !is_punctuator(#[trigger] s[k]) && !is_space(s[k]),
    decreases s.len() - i,
{
    if i < s.len() && !is_punctuator(s[i]) && !is_space(s[i]) {
        lemma_symbol_end(s, i + 1);
    }
}

proof fn lemma_string_body(s: Seq<char>, k: int, acc: Seq<char>)
    requires
        0 <= k <= s.len(),
    ensures
        string_body(s, k, acc) matches Ok((b, e)) ==> k <= e <= s.len(),
    decreases s.len() - k,
{
    if k < s.len() && s[k] != '"' {
        if s[k] == '\\' {
            if k + 1 < s.len() {
                if let Some(e) = escaped(s[k + 1]) {
                    lemma_string_body(s, k + 2, acc.push(e));
                }
            }
        } else {
            lemma_string_body(s, k + 1, acc.push(s[k]));
        }
    }
}

/// A token that may stand in a line only as a non-empty run without whitespace.
pub open spec fn well_delimited(t: TokenModel) -> bool {
    match t {
        TokenModel::Symbol(name) => name.len() > 0 && forall|m: int|
            0 <= m < name.len() ==> !is_space(#[trigger] name[m]),
        TokenModel::Punctuator(c) => !is_space(c),
        _ => true,
    }
}

proof fn lemma_next_token(s: Seq<char>, i: int)
    requires
        0 <= i <= s.len(),
    ensures
        next_token(s, i) matches Ok(Some((t, j))) ==> i < j <= s.len() && well_delimited(t),
    decreases s.len() - i,
{
    if i < s.len() {
        let c = s[i];
        if is_digit(c) {
            lemma_numeral_end(s, i);
        } else if c == '"' {
            lemma_string_body(s, i + 1, seq![]);
        } else if is_punctuator(c) {
        } else if is_space(c) {
            lemma_next_token(s, i + 1);
        } else {
            lemma_symbol_end(s, i);
            lemma_symbol_end(s, i + 1);
            let j = symbol_end(s, i);
            assert(j == symbol_end(s, i + 1));
            let name = s.subrange(i, j);
            assert forall|m: int| 0 <= m < name.len() implies !is_space(#[trigger] name[m]) by {
                assert(name[m] == s[i + m]);
            }
        }
    }
}

/// Prepends the tokens `v` to the outcome `r` of tokenizing the rest of a line.
pub open spec fn after_tokens(v: Seq<TokenModel>, r: Result<Seq<TokenModel>, LexError>) -> Result<Seq<TokenModel>, LexError> {
    match r {
        Ok(ts) => Ok(v + ts),
        Err(x) => Err(x),
    }
}

proof fn lemma_blank_suffix(s: Seq<char>, i: int)
    requires
        0 <= i <= s.len(),
        forall|k: int| i <= k < s.len() ==> is_space(#[trigger] s[k]),
    ensures
        next_token(s, i) == Ok::<Option<(TokenModel, int)>, LexError>(None),
    decreases s.len() - i,
{
    if i < s.len() {
        lemma_blank_suffix(s, i + 1);
    }
}

/// A line that is empty or holds only whitespace has no tokens.
pub proof fn blank_line_has_no_tokens(s: Seq<char>)
    requires
        forall|k: int| 0 <= k < s.len() ==> is_space(#[trigger] s[k]),
    ensures
        lex(s) == Ok::<Seq<TokenModel>, LexError>(seq![]),
{
    lemma_blank_suffix(s, 0);
}

/// Tokenizing depends on the line alone: two lexers made afresh over the same
/// characters give the same tokens, or fail with the same error.
pub proof fn lexing_is_deterministic(a: Seq<char>, b: Seq<char>)
    requires
        a == b,
    ensures
        lex(a) == lex(b),
{
}

proof fn lemma_tokens_well_delimited(s: Seq<char>, i: int)
    requires
        0 <= i <= s.len(),
    ensures
        tokens_from(s, i) matches Ok(ts) ==> forall|k: int|
            0 <= k < ts.len() ==> well_delimited(#[trigger] ts[k]),
    decreases s.len() - i,
{
    lemma_next_token(s, i);
    if let Ok(Some((t, j))) = next_token(s, i) {
        lemma_tokens_well_delimited(s, j);
        if let Ok(rest) = tokens_from(s, j) {
            let ts = seq![t] + rest;
            assert forall|k: int| 0 <= k < ts.len() implies well_delimited(#[trigger] ts[k]) by {
                if k > 0 {
                    assert(ts[k] == rest[k - 1]);
                }
            }
        }
    }
}

/// Every symbol that a line yields is non-empty, and no symbol or punctuator holds whitespace.
pub proof fn tokens_are_well_delimited(s: Seq<char>)
    ensures
        lex(s) matches Ok(ts) ==> forall|k: int| 0 <= k < ts.len() ==> well_delimited(#[trigger] ts[k]),
{
    lemma_tokens_well_delimited(s, 0);
}

/// Reads the run of digits and dots that starts at `i`: its text, its end, and its number of dots.
fn read_numeral(s: &[char], i: usize) -> (r: (String, usize, usize))
    requires
        i <= s@.len(),
    ensures
        r.1 == numeral_end(s@, i as int),
        r.0@ == s@.subrange(i as int, r.1 as int),
        r.2 == count_dots(r.0@),
{
    let mut text = String::new();
    let mut j: usize = i;
    let mut dots: usize = 0;
    while j < s.len() && (is_digit_char(s[j]) || s[j] == '.')
        invariant
            i <= j <= s@.len(),
            numeral_end(s@, j as int) == numeral_end(s@, i as int),
            text@ == s@.subrange(i as int, j as int),
            dots == count_dots(text@),
            dots <= j - i,
        decreases s@.len() - j,
    {
        let c = s[j];
        proof {
            assert(text@.push(c).drop_last() =~= text@);
            assert(s@.subrange(i as int, j + 1) =~= text@.push(c));
        }
        push_char(&mut text, c);
        if c == '.' {
            dots = dots + 1;
        }
        j = j + 1;
    }
    (text, j, dots)
}

/// Reads the run without punctuators or whitespace that starts at `i`: its text and its end.
fn read_symbol(s: &[char], i: usize) -> (r: (String, usize))
    requires
        i <= s@.len(),
    ensures
        r.1 == symbol_end(s@, i as int),
        r.0@ == s@.subrange(i as int, r.1 as int),
{
    let mut text = String::new();
    let mut j: usize = i;
    while j < s.len() && !is_punctuator_char(s[j]) && !is_space_char(s[j])
        invariant
            i <= j <= s@.len(),
            symbol_end(s@, j as int) == symbol_end(s@, i as int),
            text@ == s@.subrange(i as int, j as int),
        decreases s@.len() - j,
    {
        let c = s[j];
        proof {
            assert(s@.subrange(i as int, j + 1) =~= text@.push(c));
        }
        push_char(&mut text, c);
        j = j + 1;
    }
    (text, j)
}

/// Reads the body of a string literal from `k` on, just after its opening quote.
fn read_string(s: &[char], k: usize) -> (r: Result<(String, usize), LexError>)
    requires
        k <= s@.len(),
    ensures
        string_view(r) == string_body(s@, k as int, seq![]),
{
    let mut text = String::new();
    let mut j: usize = k;
    while j < s.len()
        invariant
            k <= j <= s@.len(),
            string_body(s@, j as int, text@) == string_body(s@, k as int, seq![]),
        decreases s@.len() - j,
    {
        let c = s[j];
        if c == '"' {
            return Ok((text, j + 1));
        } else if c == '\\' {
            if j + 1 >= s.len() {
                return Err(LexError::UnterminatedEscape);
            }
            match get_escape_sequence(s[j + 1]) {
                Some(e) => {
                    push_char(&mut text, e);
                    j = j + 2;
                },
                None => {
                    return Err(LexError::UnrecognizedEscape);
                },
            }
        } else {
            push_char(&mut text, c);
            j = j + 1;
        }
    }
    Ok((text, j))
}

/// A cursor over one line of input that hands out its tokens one at a time.
pub struct Lexer<'a> {
    code: &'a [char],
    pos: usize,
}

impl<'a> Lexer<'a> {
    /// The line being tokenized.
    pub closed spec fn input(&self) -> Seq<char> {
        self.code@
    }

    /// How far the line has been consumed.
    pub closed spec fn position(&self) -> int {
        self.pos as int
    }

    pub closed spec fn wf(&self) -> bool {
        self.pos <= self.code@.len()
    }

    /// A lexer at the start of `code`.
    pub fn new(code: &'a [char]) -> (r: Self)
        ensures
            r.wf(),
            r.input() == code@,
            r.position() == 0,
    {
        Lexer { code, pos: 0 }
    }

    /// The next token, `Ok(None)` once only whitespace is left, or the error that
    /// stops tokenizing. After `None` or an error the lexer is exhausted.
    pub fn next(&mut self) -> (r: Result<Option<Token>, LexError>)
        requires
            old(self).wf(),
        ensures
            final(self).wf(),
            final(self).input() == old(self).input(),
            next_view(r) == step_outcome(next_token(old(self).input(), old(self).position())),
            final(self).position() == step_position(old(self).input(), old(self).position()),
    {
        let len = self.code.len();
        while self.pos < len
            invariant
                self.code@ == old(self).code@,
                len == self.code@.len(),
                old(self).pos <= self.pos <= len,
                next_token(self.code@, self.pos as int) == next_token(
                    old(self).code@,
                    old(self).pos as int,
                ),
            decreases len - self.pos,
        {
            let ch = self.code[self.pos];
            if is_digit_char(ch) {
                let (text, end, dots) = read_numeral(self.code, self.pos);
                proof {
                    lemma_numeral_end(self.code@, self.pos as int);
                }
                if dots <= 1 {
                    self.pos = end;
                    return Ok(Some(Token::Number(text)));
                } else {
                    self.pos = len;
                    return Err(LexError::InvalidNumber);
                }
            } else if ch == '"' {
                proof {
                    lemma_string_body(self.code@, self.pos + 1, seq![]);
                }
                match read_string(self.code, self.pos + 1) {
                    Ok((text, end)) => {
                        self.pos = end;
                        return Ok(Some(Token::String(text)));
                    },
                    Err(x) => {
                        self.pos = len;
                        return Err(x);
                    },
                }
            } else if is_punctuator_char(ch) {
                proof {
                    lemma_next_token(self.code@, self.pos as int);
                }
                self.pos = self.pos + 1;
                return Ok(Some(Token::Punctuator(ch)));
            } else if is_space_char(ch) {
                self.pos = self.pos + 1;
            } else {
                let (text, end) = read_symbol(self.code, self.pos);
                proof {
                    lemma_symbol_end(self.code@, self.pos as int);
                }
                if end < len && is_space_char(self.code[end]) {
                    self.pos = end + 1;
                } else {
                    self.pos = end;
                }
                return Ok(Some(Token::Symbol(text)));
            }
        }
        Ok(None)
    }

    /// All the tokens from the cursor on, or the error that stops tokenizing.
    pub fn collect(self) -> (r: Result<Vec<Token>, LexError>)
        requires
            self.wf(),
        ensures
            tokens_view(r) == tokens_from(self.input(), self.position()),
    {
        let mut lexer = self;
        let mut out: Vec<Token> = Vec::new();
        loop
            invariant
                lexer.wf(),
                lexer.input() == self.input(),
                tokens_from(self.input(), self.position()) == after_tokens(
                    token_views(out@),
                    tokens_from(lexer.input(), lexer.position()),
                ),
            decreases lexer.input().len() - lexer.position(),
        {
            proof {
                lemma_next_token(lexer.input(), lexer.position());
            }
            let ghost prev = lexer;
            match lexer.next() {
                Ok(Some(t)) => {
                    proof {
                        assert(token_views(out@.push(t)) =~= token_views(out@) + seq![t@]);
                        match tokens_from(lexer.input(), lexer.position()) {
                            Ok(ts) => {
                                assert(token_views(out@) + (seq![t@] + ts) =~= token_views(out@)
                                    + seq![t@] + ts);
                            },
                            Err(_) => {},
                        }
                    }
                    out.push(t);
                },
                Ok(None) => {
                    assert(token_views(out@) + seq![] =~= token_views(out@));
                    return Ok(out);
                },
                Err(x) => {
                    return Err(x);
                },
            }
        }
    }
}

/// Resolves the escape sequence made of a backslash and `ch`; `None` when it has no meaning.
pub fn get_escape_sequence(ch: char) -> (r: Option<char>)
    ensures
        r == escaped(ch),
{
    if ch == '"' {
        Some('"')
    } else if ch == 'n' {
        Some('\n')
    } else if ch == 'r' {
        Some('\r')
    } else if ch == 't' {
        Some('\t')
    } else if ch == '\\' {
        Some('\\')
    } else {
        None
    }
}

} // verus!
