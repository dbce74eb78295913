use vstd::prelude::*;

verus! {

/// The kinds of token of a query text.
#[derive(Clone, Copy, PartialEq, Eq, Structural, Debug, Hash)]
pub enum TokenKind {
    /// A bare name: a keyword, a function name, `a`, `true` or `false`.
    Word,
    /// A variable; the text is its name without `?` or `$`.
    Variable,
    /// An IRI reference; the text is what stands between `<` and `>`.
    Iri,
    /// A prefixed name; `middle` is the place of its colon.
    Prefixed,
    /// A string in double or in single quotes; the text is what stands
    /// between the quotes, with its escapes as they are written.
    Text,
    /// An unsigned integer.
    Integer,
    /// An unsigned decimal number: digits, a point, and digits.
    Decimal,
    /// A language tag; the text is what follows `@`.
    LangTag,
    OpenBrace,
    CloseBrace,
    OpenParen,
    CloseParen,
    Dot,
    Comma,
    Semicolon,
    Star,
    Equal,
    NotEqual,
    Less,
    Greater,
    LessOrEqual,
    GreaterOrEqual,
    And,
    Or,
    Not,
    Plus,
    Minus,
    Slash,
    DoubleCaret,
}

/// A token: its kind, and where its text stands among the characters of the
/// query, from `start` up to `end`.
#[derive(Clone, Copy, PartialEq, Eq, Structural, Debug, Hash)]
pub struct Token {
    pub kind: TokenKind,
    pub start: usize,
    pub middle: usize,
    pub end: usize,
}

/// Whether `c` is a space, a tab or a line end.
pub open spec fn is_space(c: char) -> bool {
    c == ' ' || c == '\t' || c == '\n' || c == '\r'
}

/// Whether `c` is a letter of the basic Latin alphabet.
pub open spec fn is_letter(c: char) -> bool {
    ('a' <= c <= 'z') || ('A' <= c <= 'Z')
}

/// Whether `c` is a decimal digit.
pub open spec fn is_decimal(c: char) -> bool {
    '0' <= c <= '9'
}

/// Whether `c` may stand in a name: a letter, a digit, `_` or `-`.
pub open spec fn is_name_char(c: char) -> bool {
    is_letter(c) || is_decimal(c) || c == '_' || c == '-'
}

/// Whether `c` may stand in an IRI reference.
pub open spec fn is_iri_ref_char(c: char) -> bool {
    c > ' ' && c != '<' && c != '>' && c != '"' && c != '{' && c != '}' && c != '|' && c != '^'
        && c != '`' && c != '\\'
}

/// Whether `c` may follow a backslash in a string.
pub open spec fn is_escape(c: char) -> bool {
    c == 't' || c == 'b' || c == 'n' || c == 'r' || c == 'f' || c == '"' || c == '\'' || c == '\\'
}

/// The end of the string that goes on at `i` and closes with `quote`: the
/// first position that holds the quote, a line end, or a backslash that no
/// escape follows. A backslash takes the character after it along.
pub open spec fn scan_string(chars: Seq<char>, i: int, quote: char) -> int
    decreases chars.len() - i,
{
    if !(0 <= i < chars.len()) {
        i
    } else if chars[i] == '\\' {
        if i + 1 < chars.len() && is_escape(chars[i + 1]) {
            scan_string(chars, i + 2, quote)
        } else {
            i
        }
    } else if chars[i] == quote || chars[i] == '\n' || chars[i] == '\r' {
        i
    } else {
        scan_string(chars, i + 1, quote)
    }
}

/// Whether `c` may stand in a comment: anything but a line end.
pub open spec fn is_comment_char(c: char) -> bool {
    c != '\n' && c != '\r'
}

/// The classes of character that a token is made of.
#[derive(Clone, Copy, PartialEq, Eq, Structural, Debug, Hash)]
pub enum CharClass {
    Space,
    Name,
    Decimal,
    IriRef,
    Comment,
    /// What may stand in the scheme of an IRI.
    Scheme,
    /// Anything but `/`, `?` and `#`.
    Authority,
    /// Anything but `?` and `#`.
    Path,
    /// Anything but `#`.
    Query,
    /// Anything but `/`.
    Segment,
}

/// Whether `c` belongs to the class.
pub open spec fn in_class(class: CharClass, c: char) -> bool {
    match class {
        CharClass::Space => is_space(c),
        CharClass::Name => is_name_char(c),
        CharClass::Decimal => is_decimal(c),
        CharClass::IriRef => is_iri_ref_char(c),
        CharClass::Comment => is_comment_char(c),
        CharClass::Scheme => is_letter(c) || is_decimal(c) || c == '+' || c == '-' || c == '.',
        CharClass::Authority => c != '/' && c != '?' && c != '#',
        CharClass::Path => c != '?' && c != '#',
        CharClass::Query => c != '#',
        CharClass::Segment => c != '/',
    }
}

/// The first position from `i` on that holds no character of the class.
pub open spec fn scan(chars: Seq<char>, i: int, class: CharClass) -> int
    decreases chars.len() - i,
{
    if 0 <= i < chars.len() && in_class(class, chars[i]) {
        scan(chars, i + 1, class)
    } else {
        i
    }
}

/// A token that stands from `start` up to `end`.
pub open spec fn token(kind: TokenKind, start: int, end: int) -> Token {
    Token { kind, start: start as usize, middle: start as usize, end: end as usize }
}

/// Whether the character `c` stands at `i`.
pub open spec fn char_at(chars: Seq<char>, i: int, c: char) -> bool {
    0 <= i < chars.len() && chars[i] == c
}

/// Whether the characters `a` then `b` stand at `i`.
pub open spec fn two_at(chars: Seq<char>, i: int, a: char, b: char) -> bool {
    0 <= i && i + 1 < chars.len() && chars[i] == a && chars[i + 1] == b
}

/// The token that starts at `i`, which holds no space, and the position
/// after it; `None` where no token starts there.
pub open spec fn next_token(chars: Seq<char>, i: int) -> Option<(Token, int)> {
    if !(0 <= i < chars.len()) {
        None
    } else {
        let c = chars[i];
        if c == '?' || c == '$' {
            let end = scan(chars, i + 1, CharClass::Name);
            if end > i + 1 {
                Some((token(TokenKind::Variable, i + 1, end), end))
            } else {
                None
            }
        } else if c == '<' {
            let end = scan(chars, i + 1, CharClass::IriRef);
            if end < chars.len() && chars[end] == '>' {
                Some((token(TokenKind::Iri, i + 1, end), end + 1))
            } else if two_at(chars, i, '<', '=') {
                Some((token(TokenKind::LessOrEqual, i, i + 2), i + 2))
            } else {
                Some((token(TokenKind::Less, i, i + 1), i + 1))
            }
        } else if c == '"' || c == '\'' {
            let end = scan_string(chars, i + 1, c);
            if i < end < chars.len() && chars[end] == c {
                Some((token(TokenKind::Text, i + 1, end), end + 1))
            } else {
                None
            }
        } else if c == '@' {
            let end = scan(chars, i + 1, CharClass::Name);
            if end > i + 1 {
                Some((token(TokenKind::LangTag, i + 1, end), end))
            } else {
                None
            }
        } else if is_decimal(c) {
            let end = scan(chars, i, CharClass::Decimal);
            if char_at(chars, end, '.') && end + 1 < chars.len() && is_decimal(chars[end + 1]) {
                let last = scan(chars, end + 1, CharClass::Decimal);
                Some((token(TokenKind::Decimal, i, last), last))
            } else {
                Some((token(TokenKind::Integer, i, end), end))
            }
        } else if is_letter(c) || c == '_' || c == ':' {
            let colon = scan(chars, i, CharClass::Name);
            if colon < chars.len() && chars[colon] == ':' {
                let end = scan(chars, colon + 1, CharClass::Name);
                Some(
                    (
                        Token {
                            kind: TokenKind::Prefixed,
                            start: i as usize,
                            middle: colon as usize,
                            end: end as usize,
                        },
                        end,
                    ),
                )
            } else {
                Some((token(TokenKind::Word, i, colon), colon))
            }
        } else if c == '{' {
            Some((token(TokenKind::OpenBrace, i, i + 1), i + 1))
        } else if c == '}' {
            Some((token(TokenKind::CloseBrace, i, i + 1), i + 1))
        } else if c == '(' {
            Some((token(TokenKind::OpenParen, i, i + 1), i + 1))
        } else if c == ')' {
            Some((token(TokenKind::CloseParen, i, i + 1), i + 1))
        } else if c == '.' {
            Some((token(TokenKind::Dot, i, i + 1), i + 1))
        } else if c == ',' {
            Some((token(TokenKind::Comma, i, i + 1), i + 1))
        } else if c == ';' {
            Some((token(TokenKind::Semicolon, i, i + 1), i + 1))
        } else if c == '*' {
            Some((token(TokenKind::Star, i, i + 1), i + 1))
        } else if c == '=' {
            Some((token(TokenKind::Equal, i, i + 1), i + 1))
        } else if c == '!' {
            if two_at(chars, i, '!', '=') {
                Some((token(TokenKind::NotEqual, i, i + 2), i + 2))
            } else {
                Some((token(TokenKind::Not, i, i + 1), i + 1))
            }
        } else if c == '>' {
            if two_at(chars, i, '>', '=') {
                Some((token(TokenKind::GreaterOrEqual, i, i + 2), i + 2))
            } else {
                Some((token(TokenKind::Greater, i, i + 1), i + 1))
            }
        } else if c == '&' {
            if two_at(chars, i, '&', '&') {
                Some((token(TokenKind::And, i, i + 2), i + 2))
            } else {
                None
            }
        } else if c == '|' {
            if two_at(chars, i, '|', '|') {
                Some((token(TokenKind::Or, i, i + 2), i + 2))
            } else {
                None
            }
        } else if c == '+' {
            Some((token(TokenKind::Plus, i, i + 1), i + 1))
        } else if c == '-' {
            Some((token(TokenKind::Minus, i, i + 1), i + 1))
        } else if c == '/' {
            Some((token(TokenKind::Slash, i, i + 1), i + 1))
        } else if c == '^' {
            if two_at(chars, i, '^', '^') {
                Some((token(TokenKind::DoubleCaret, i, i + 2), i + 2))
            } else {
                None
            }
        } else {
            None
        }
    }
}

/// The first position from `i` on that holds neither a space nor a
/// comment. A comment runs from `#` up to the end of its line.
pub open spec fn skip_blank(chars: Seq<char>, i: int) -> int
    decreases chars.len() - i,
{
    let at = scan(chars, i, CharClass::Space);
    if 0 <= i <= at < chars.len() && chars[at] == '#' {
        let end = scan(chars, at + 1, CharClass::Comment);
        if i < end <= chars.len() {
            skip_blank(chars, end)
        } else {
            at
        }
    } else {
        at
    }
}

/// The tokens of the text from `i` on, after those of `done`; or the
/// position at which no token starts.
pub open spec fn lex_from(chars: Seq<char>, i: int, done: Seq<Token>) -> Result<Seq<Token>, int>
    decreases chars.len() - i,
{
    let at = skip_blank(chars, i);
    if at >= chars.len() || at < 0 {
        Ok(done)
    } else {
        match next_token(chars, at) {
            Some((found, next)) => if next > at && next > i && next <= chars.len() {
                lex_from(chars, next, done.push(found))
            } else {
                Err(at)
            },
            None => Err(at),
        }
    }
}

/// The tokens of a query text; or the position at which no token starts.
pub open spec fn lex(chars: Seq<char>) -> Result<Seq<Token>, int> {
    lex_from(chars, 0, Seq::empty())
}

/// Whether each token stands inside a text of `len` characters.
pub open spec fn tokens_within(tokens: Seq<Token>, len: nat) -> bool {
    forall|k: int|
        0 <= k < tokens.len() ==> (#[trigger] tokens[k]).start <= tokens[k].middle
            <= tokens[k].end <= len && (tokens[k].kind == TokenKind::Prefixed ==> tokens[k].middle
            < tokens[k].end)
}

pub fn in_class_of(class: CharClass, c: char) -> (inside: bool)
    ensures
        inside == in_class(class, c),
{
    match class {
        CharClass::Space => c == ' ' || c == '\t' || c == '\n' || c == '\r',
        CharClass::Name => ('a' <= c && c <= 'z') || ('A' <= c && c <= 'Z') || ('0' <= c && c
            <= '9') || c == '_' || c == '-',
        CharClass::Decimal => '0' <= c && c <= '9',
        CharClass::IriRef => c > ' ' && c != '<' && c != '>' && c != '"' && c != '{' && c != '}'
            && c != '|' && c != '^' && c != '`' && c != '\\',
        CharClass::Comment => c != '\n' && c != '\r',
        CharClass::Scheme => ('a' <= c && c <= 'z') || ('A' <= c && c <= 'Z') || ('0' <= c && c
            <= '9') || c == '+' || c == '-' || c == '.',
        CharClass::Authority => c != '/' && c != '?' && c != '#',
        CharClass::Path => c != '?' && c != '#',
        CharClass::Query => c != '#',
        CharClass::Segment => c != '/',
    }
}

/// The first position from `i` on that holds no character of the class.
pub fn scan_in(chars: &Vec<char>, i: usize, class: CharClass) -> (end: usize)
    requires
        i <= chars@.len(),
    ensures
        end == scan(chars@, i as int, class),
        i <= end <= chars@.len(),
{
    let mut end: usize = i;
    while end < chars.len() && in_class_of(class, chars[end])
        invariant
            i <= end <= chars@.len(),
            scan(chars@, i as int, class) == scan(chars@, end as int, class),
        decreases chars@.len() - end,
    {
        end = end + 1;
    }
    end
}

fn is_escape_of(c: char) -> (escape: bool)
    ensures
        escape == is_escape(c),
{
    c == 't' || c == 'b' || c == 'n' || c == 'r' || c == 'f' || c == '"' || c == '\'' || c == '\\'
}

/// The end of the string that goes on at `i` and closes with `quote`.
pub fn scan_string_in(chars: &Vec<char>, i: usize, quote: char) -> (end: usize)
    requires
        i <= chars@.len(),
    ensures
        end == scan_string(chars@, i as int, quote),
        i <= end <= chars@.len(),
{
    let len = chars.len();
    let mut end: usize = i;
    loop
        invariant
            len == chars@.len(),
            i <= end <= len,
            scan_string(chars@, i as int, quote) == scan_string(chars@, end as int, quote),
        decreases len - end,
    {
        if end >= len {
            return end;
        }
        let c = chars[end];
        if c == '\\' {
            if len - end > 1 && is_escape_of(chars[end + 1]) {
                end = end + 2;
            } else {
                return end;
            }
        } else if c == quote || c == '\n' || c == '\r' {
            return end;
        } else {
            end = end + 1;
        }
    }
}

fn token_of(kind: TokenKind, start: usize, end: usize) -> (made: Token)
    ensures
        made == token(kind, start as int, end as int),
{
    Token { kind, start, middle: start, end }
}

fn two_at_in(chars: &Vec<char>, i: usize, a: char, b: char) -> (found: bool)
    requires
        i < chars@.len(),
    ensures
        found == two_at(chars@, i as int, a, b),
{
    let len = chars.len();
    i + 1 < len && chars[i] == a && chars[i + 1] == b
}

/// The token that starts at `i`, and the position after it.
pub fn next_token_in(chars: &Vec<char>, i: usize) -> (found: Option<(Token, usize)>)
    requires
        i < chars@.len(),
    ensures
        match found {
            Some((made, next)) => next_token(chars@, i as int) == Some((made, next as int))
                && made.start <= made.middle <= made.end <= chars@.len() && next
                <= chars@.len() && (made.kind == TokenKind::Prefixed ==> made.middle < made.end),
            None => next_token(chars@, i as int) is None,
        },
{
    // reading the length tells the verifier that positions fit a machine word
    let _len = chars.len();
    let c = chars[i];
    if c == '?' || c == '$' {
        let end = scan_in(chars, i + 1, CharClass::Name);
        if end > i + 1 {
            Some((token_of(TokenKind::Variable, i + 1, end), end))
        } else {
            None
        }
    } else if c == '<' {
        let end = scan_in(chars, i + 1, CharClass::IriRef);
        if end < chars.len() && chars[end] == '>' {
            Some((token_of(TokenKind::Iri, i + 1, end), end + 1))
        } else if two_at_in(chars, i, '<', '=') {
            Some((token_of(TokenKind::LessOrEqual, i, i + 2), i + 2))
        } else {
            Some((token_of(TokenKind::Less, i, i + 1), i + 1))
        }
    } else if c == '"' || c == '\'' {
        let end = scan_string_in(chars, i + 1, c);
        if end < chars.len() && chars[end] == c {
            Some((token_of(TokenKind::Text, i + 1, end), end + 1))
        } else {
            None
        }
    } else if c == '@' {
        let end = scan_in(chars, i + 1, CharClass::Name);
        if end > i + 1 {
            Some((token_of(TokenKind::LangTag, i + 1, end), end))
        } else {
            None
        }
    } else if '0' <= c && c <= '9' {
        let end = scan_in(chars, i, CharClass::Decimal);
        if end < chars.len() && chars[end] == '.' && chars.len() - end > 1 && '0' <= chars[end + 1]
            && chars[end + 1] <= '9' {
            let last = scan_in(chars, end + 1, CharClass::Decimal);
            Some((token_of(TokenKind::Decimal, i, last), last))
        } else {
            Some((token_of(TokenKind::Integer, i, end), end))
        }
    } else if ('a' <= c && c <= 'z') || ('A' <= c && c <= 'Z') || c == '_' || c == ':' {
        let colon = scan_in(chars, i, CharClass::Name);
        if colon < chars.len() && chars[colon] == ':' {
            let end = scan_in(chars, colon + 1, CharClass::Name);
            Some((Token { kind: TokenKind::Prefixed, start: i, middle: colon, end }, end))
        } else {
            Some((token_of(TokenKind::Word, i, colon), colon))
        }
    } else if c == '{' {
        Some((token_of(TokenKind::OpenBrace, i, i + 1), i + 1))
    } else if c == '}' {
        Some((token_of(TokenKind::CloseBrace, i, i + 1), i + 1))
    } else if c == '(' {
        Some((token_of(TokenKind::OpenParen, i, i + 1), i + 1))
    } else if c == ')' {
        Some((token_of(TokenKind::CloseParen, i, i + 1), i + 1))
    } else if c == '.' {
        Some((token_of(TokenKind::Dot, i, i + 1), i + 1))
    } else if c == ',' {
        Some((token_of(TokenKind::Comma, i, i + 1), i + 1))
    } else if c == ';' {
        Some((token_of(TokenKind::Semicolon, i, i + 1), i + 1))
    } else if c == '*' {
        Some((token_of(TokenKind::Star, i, i + 1), i + 1))
    } else if c == '=' {
        Some((token_of(TokenKind::Equal, i, i + 1), i + 1))
    } else if c == '!' {
        if two_at_in(chars, i, '!', '=') {
            Some((token_of(TokenKind::NotEqual, i, i + 2), i + 2))
        } else {
            Some((token_of(TokenKind::Not, i, i + 1), i + 1))
        }
    } else if c == '>' {
        if two_at_in(chars, i, '>', '=') {
            Some((token_of(TokenKind::GreaterOrEqual, i, i + 2), i + 2))
        } else {
            Some((token_of(TokenKind::Greater, i, i + 1), i + 1))
        }
    } else if c == '&' {
        if two_at_in(chars, i, '&', '&') {
            Some((token_of(TokenKind::And, i, i + 2), i + 2))
        } else {
            None
        }
    } else if c == '|' {
        if two_at_in(chars, i, '|', '|') {
            Some((token_of(TokenKind::Or, i, i + 2), i + 2))
        } else {
            None
        }
    } else if c == '+' {
        Some((token_of(TokenKind::Plus, i, i + 1), i + 1))
    } else if c == '-' {
        Some((token_of(TokenKind::Minus, i, i + 1), i + 1))
    } else if c == '/' {
        Some((token_of(TokenKind::Slash, i, i + 1), i + 1))
    } else if c == '^' {
        if two_at_in(chars, i, '^', '^') {
            Some((token_of(TokenKind::DoubleCaret, i, i + 2), i + 2))
        } else {
            None
        }
    } else {
        None
    }
}

/// The first position from `i` on that holds neither a space nor a
/// comment.
pub fn skip_blank_in(chars: &Vec<char>, i: usize) -> (at: usize)
    requires
        i <= chars@.len(),
    ensures
        at == skip_blank(chars@, i as int),
        i <= at <= chars@.len(),
{
    let mut from = i;
    loop
        invariant
            i <= from <= chars@.len(),
            skip_blank(chars@, i as int) == skip_blank(chars@, from as int),
        decreases chars@.len() - from,
    {
        let at = scan_in(chars, from, CharClass::Space);
        if at < chars.len() && chars[at] == '#' {
            from = scan_in(chars, at + 1, CharClass::Comment);
        } else {
            return at;
        }
    }
}

/// The tokens of a query text; or the position at which no token starts.
pub fn tokenize(chars: &Vec<char>) -> (tokens: Result<Vec<Token>, usize>)
    ensures
        match tokens {
            Ok(found) => lex(chars@) == Ok::<Seq<Token>, int>(found@) && tokens_within(
                found@,
                chars@.len(),
            ),
            Err(at) => lex(chars@) == Err::<Seq<Token>, int>(at as int) && at <= chars@.len(),
        },
{
    let mut found: Vec<Token> = Vec::new();
    let mut i: usize = 0;
    loop
        invariant
            i <= chars@.len(),
            lex(chars@) == lex_from(chars@, i as int, found@),
            tokens_within(found@, chars@.len()),
        decreases chars@.len() - i,
    {
        let at = skip_blank_in(chars, i);
        if at >= chars.len() {
            return Ok(found);
        }
        match next_token_in(chars, at) {
            Some((made, next)) => {
                if next > at && next > i {
                    found.push(made);
                    i = next;
                } else {
                    return Err(at);
                }
            },
            None => {
                return Err(at);
            },
        }
    }
}

} // verus!
