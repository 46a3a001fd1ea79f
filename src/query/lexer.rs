//! The query lexer: splits a query into operators, quoted literals and
//! identifiers.
use vstd::prelude::*;

use crate::text::{chars_of, push_char};

verus! {

/// A token of the query language.
#[derive(Debug, Clone, PartialEq)]
pub enum QueryToken {
    Colon,
    Equal,
    LessThan,
    GreaterThan,
    LessThanOrEqual,
    GreaterThanOrEqual,
    Not,
    Or,
    StrLit(String),
    Ident(String),
}

/// A token with its text as a sequence of characters.
pub enum TokenView {
    Colon,
    Equal,
    LessThan,
    GreaterThan,
    LessThanOrEqual,
    GreaterThanOrEqual,
    Not,
    Or,
    StrLit(Seq<char>),
    Ident(Seq<char>),
}

impl View for QueryToken {
    type V = TokenView;

    open spec fn view(&self) -> TokenView {
        match self {
            QueryToken::Colon => TokenView::Colon,
            QueryToken::Equal => TokenView::Equal,
            QueryToken::LessThan => TokenView::LessThan,
            QueryToken::GreaterThan => TokenView::GreaterThan,
            QueryToken::LessThanOrEqual => TokenView::LessThanOrEqual,
            QueryToken::GreaterThanOrEqual => TokenView::GreaterThanOrEqual,
            QueryToken::Not => TokenView::Not,
            QueryToken::Or => TokenView::Or,
            QueryToken::StrLit(s) => TokenView::StrLit(s@),
            QueryToken::Ident(s) => TokenView::Ident(s@),
        }
    }
}

/// The characters with the Unicode White_Space property.
pub open spec fn is_white_space(c: char) -> bool {
    let v = c as u32;
    ||| 0x09 <= v <= 0x0D
    ||| v == 0x20
    ||| v == 0x85
    ||| v == 0xA0
    ||| v == 0x1680
    ||| 0x2000 <= v <= 0x200A
    ||| v == 0x2028
    ||| v == 0x2029
    ||| v == 0x202F
    ||| v == 0x205F
    ||| v == 0x3000
}

/// Relies on `char::is_whitespace`: true exactly for the characters with
/// the Unicode White_Space property.
#[verifier::external_body]
fn is_whitespace(c: char) -> (r: bool)
    ensures
        r == is_white_space(c),
{
    c.is_whitespace()
}

/// The first position from `i` on that does not hold white space.
pub open spec fn space_end(s: Seq<char>, i: int) -> int
    decreases s.len() - i,
{
    if 0 <= i < s.len() && is_white_space(s[i]) { space_end(s, i + 1) } else { i }
}

/// The first position from `i` on that holds a double quote, or the end.
pub open spec fn quote_end(s: Seq<char>, i: int) -> int
    decreases s.len() - i,
{
    if 0 <= i < s.len() && s[i] != '"' { quote_end(s, i + 1) } else { i }
}

/// The first position from `i` on that holds white space or a colon, or the end.
pub open spec fn word_end(s: Seq<char>, i: int) -> int
    decreases s.len() - i,
{
    if 0 <= i < s.len() && !is_white_space(s[i]) && s[i] != ':' { word_end(s, i + 1) } else { i }
}

/// The token that starts at or after `pos`, and the position after it.
/// White space is skipped; `<` and `>` take a following `=`; a double quote
/// opens a literal that runs to the next double quote or to the end; any
/// other character starts an identifier that runs to white space or a colon.
pub open spec fn lex_next(s: Seq<char>, pos: int) -> (Option<TokenView>, int) {
    let i = space_end(s, pos);
    if i >= s.len() {
        (None, i)
    } else {
        let c = s[i];
        let has_eq = i + 1 < s.len() && s[i + 1] == '=';
        if c == ':' {
            (Some(TokenView::Colon), i + 1)
        } else if c == '=' {
            (Some(TokenView::Equal), i + 1)
        } else if c == '<' {
            if has_eq { (Some(TokenView::LessThanOrEqual), i + 2) } else { (Some(TokenView::LessThan), i + 1) }
        } else if c == '>' {
            if has_eq { (Some(TokenView::GreaterThanOrEqual), i + 2) } else { (Some(TokenView::GreaterThan), i + 1) }
        } else if c == '!' {
            (Some(TokenView::Not), i + 1)
        } else if c == '|' {
            (Some(TokenView::Or), i + 1)
        } else if c == '"' {
            let e = quote_end(s, i + 1);
            (Some(TokenView::StrLit(s.subrange(i + 1, e))), if e < s.len() { e + 1 } else { e })
        } else {
            let e = word_end(s, i + 1);
            (Some(TokenView::Ident(s.subrange(i, e))), e)
        }
    }
}

/// The token's view, when there is a token.
pub open spec fn token_view(t: Option<QueryToken>) -> Option<TokenView> {
    match t {
        Some(t) => Some(t@),
        None => None,
    }
}

proof fn lemma_space_end_bounds(s: Seq<char>, i: int)
    requires
        0 <= i <= s.len(),
    ensures
        i <= space_end(s, i) <= s.len(),
    decreases s.len() - i,
{
    if i < s.len() && is_white_space(s[i]) {
        lemma_space_end_bounds(s, i + 1);
    }
}

proof fn lemma_quote_end_bounds(s: Seq<char>, i: int)
    requires
        0 <= i <= s.len(),
    ensures
        i <= quote_end(s, i) <= s.len(),
        quote_end(s, i) < s.len() ==> s[quote_end(s, i)] == '"',
    decreases s.len() - i,
{
    if i < s.len() && s[i] != '"' {
        lemma_quote_end_bounds(s, i + 1);
    }
}

proof fn lemma_word_end_bounds(s: Seq<char>, i: int)
    requires
        0 <= i <= s.len(),
    ensures
        i <= word_end(s, i) <= s.len(),
    decreases s.len() - i,
{
    if i < s.len() && !is_white_space(s[i]) && s[i] != ':' {
        lemma_word_end_bounds(s, i + 1);
    }
}

/// Which run of characters `read_while` takes.
enum Run {
    /// Up to the next double quote.
    Quoted,
    /// Up to white space or a colon.
    Word,
}

spec fn run_end(s: Seq<char>, i: int, run: Run) -> int {
    match run {
        Run::Quoted => quote_end(s, i),
        Run::Word => word_end(s, i),
    }
}

/// A lexer over one query, reading tokens one at a time.
pub struct QueryLexer {
    input: Vec<char>,
    read_position: usize,
}

impl QueryLexer {
    #[verifier::type_invariant]
    spec fn position_in_input(&self) -> bool {
        self.read_position <= self.input@.len()
    }

    /// The characters of the query.
    pub closed spec fn input(&self) -> Seq<char> {
        self.input@
    }

    /// The position of the next unread character.
    pub closed spec fn position(&self) -> int {
        self.read_position as int
    }

    /// A lexer at the start of `input`.
    pub fn new(input: &str) -> (r: QueryLexer)
        ensures
            r.input() == input@,
            r.position() == 0,
    {
        QueryLexer { input: chars_of(input), read_position: 0 }
    }

    fn peek_char(&self) -> (r: Option<char>)
        ensures
            r == if self.position() < self.input().len() { Some(self.input()[self.position()]) } else { None::<char> },
    {
        if self.read_position < self.input.len() {
            Some(self.input[self.read_position])
        } else {
            None
        }
    }

    fn read_char(&mut self) -> (r: Option<char>)
        ensures
            final(self).input() == old(self).input(),
            old(self).position() < old(self).input().len() ==> r == Some(old(self).input()[old(self).position()])
                && final(self).position() == old(self).position() + 1,
            old(self).position() >= old(self).input().len() ==> r is None && final(self).position() == old(self).position(),
    {
        proof {
            use_type_invariant(&*self);
        }
        let n = self.input.len();
        let ch = self.peek_char()?;
        self.read_position += 1;
        Some(ch)
    }

    fn skip_whitespace(&mut self)
        ensures
            final(self).input() == old(self).input(),
            final(self).position() == space_end(old(self).input(), old(self).position()),
    {
        proof {
            use_type_invariant(&*self);
        }
        let ghost start = self.read_position as int;
        let n = self.input.len();
        loop
            invariant
                self.input() == old(self).input(),
                n == self.input@.len(),
                self.read_position <= self.input@.len(),
                space_end(self.input@, start) == space_end(self.input@, self.read_position as int),
            ensures
                self.input() == old(self).input(),
                self.read_position as int == space_end(self.input@, start),
            decreases self.input@.len() - self.read_position,
        {
            match self.peek_char() {
                Some(ch) => {
                    if is_whitespace(ch) {
                        self.read_position += 1;
                    } else {
                        break;
                    }
                },
                None => {
                    break;
                },
            }
        }
    }

    /// Reads the run of characters that starts at the current position.
    fn read_while(&mut self, run: Run) -> (r: String)
        ensures
            final(self).input() == old(self).input(),
            final(self).position() == run_end(old(self).input(), old(self).position(), run),
            r@ == old(self).input().subrange(old(self).position(), final(self).position()),
    {
        proof {
            use_type_invariant(&*self);
        }
        let ghost start = self.read_position as int;
        let mut result = String::new();
        let n = self.input.len();
        loop
            invariant
                self.input() == old(self).input(),
                n == self.input@.len(),
                0 <= start <= self.read_position <= self.input@.len(),
                run_end(self.input@, start, run) == run_end(self.input@, self.read_position as int, run),
                result@ == self.input@.subrange(start, self.read_position as int),
            ensures
                self.input() == old(self).input(),
                self.read_position as int == run_end(self.input@, start, run),
                result@ == self.input@.subrange(start, self.read_position as int),
            decreases self.input@.len() - self.read_position,
        {
            match self.peek_char() {
                Some(ch) => {
                    let more = match run {
                        Run::Quoted => ch != '"',
                        Run::Word => !is_whitespace(ch) && ch != ':',
                    };
                    if more {
                        let ghost p = self.read_position as int;
                        assert(self.input@.subrange(start, p + 1) =~= self.input@.subrange(start, p).push(ch));
                        push_char(&mut result, ch);
                        self.read_position += 1;
                    } else {
                        break;
                    }
                },
                None => {
                    break;
                },
            }
        }
        result
    }

    /// The next token, or `None` once only white space is left.
    pub fn next_token(&mut self) -> (r: Option<QueryToken>)
        ensures
            final(self).input() == old(self).input(),
            (token_view(r), final(self).position()) == lex_next(old(self).input(), old(self).position()),
    {
        proof {
            use_type_invariant(&*self);
            lemma_space_end_bounds(self.input@, self.read_position as int);
        }
        self.skip_whitespace();
        let ghost i = self.read_position as int;
        let ghost s = self.input@;
        let ch = self.read_char()?;
        proof {
            use_type_invariant(&*self);
        }
        let token = match ch {
            ':' => QueryToken::Colon,
            '=' => QueryToken::Equal,
            '<' => {
                if self.peek_char() == Some('=') {
                    self.read_char();
                    QueryToken::LessThanOrEqual
                } else {
                    QueryToken::LessThan
                }
            },
            '>' => {
                if self.peek_char() == Some('=') {
                    self.read_char();
                    QueryToken::GreaterThanOrEqual
                } else {
                    QueryToken::GreaterThan
                }
            },
            '!' => QueryToken::Not,
            '|' => QueryToken::Or,
            '"' => {
                proof {
                    lemma_quote_end_bounds(s, i + 1);
                }
                let literal = self.read_while(Run::Quoted);
                self.read_char();
                QueryToken::StrLit(literal)
            },
            _ => {
                proof {
                    lemma_word_end_bounds(s, i + 1);
                }
                let rest = self.read_while(Run::Word);
                let mut ident = String::new();
                push_char(&mut ident, ch);
                ident.append(rest.as_str());
                assert(ident@ =~= s.subrange(i, word_end(s, i + 1)));
                QueryToken::Ident(ident)
            },
        };
        Some(token)
    }
}

} // verus!
