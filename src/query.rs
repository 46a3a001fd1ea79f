//! The query language: its lexer and the shape of a parsed query.
use vstd::prelude::*;

use crate::text::chars_of;

pub mod lexer;

verus! {

/// Which modifiers occur anywhere in a query, for hints in a user interface.
#[derive(Debug, Clone, Copy, PartialEq)]
pub struct QueryModifiersTracking {
    pub case_sensitive: bool,
    pub diacritics_sensitive: bool,
    pub file_only: bool,
    pub folder_only: bool,
    pub match_path: bool,
    pub regex: bool,
    pub whole_filename: bool,
    pub whole_word: bool,
    pub wildcards: bool,
}

impl Default for QueryModifiersTracking {
    /// No modifier seen.
    fn default() -> (r: Self)
        ensures
            !r.case_sensitive,
            !r.diacritics_sensitive,
            !r.file_only,
            !r.folder_only,
            !r.match_path,
            !r.regex,
            !r.whole_filename,
            !r.whole_word,
            !r.wildcards,
    {
        QueryModifiersTracking {
            case_sensitive: false,
            diacritics_sensitive: false,
            file_only: false,
            folder_only: false,
            match_path: false,
            regex: false,
            whole_filename: false,
            whole_word: false,
            wildcards: false,
        }
    }
}

/// A text literal with its modifiers: the first six narrow what matches,
/// the last two restrict where the text may stand.
#[derive(Debug, Clone, PartialEq)]
pub struct TextQuery {
    pub text: String,
    pub case_sensitive: bool,
    pub diacritics_sensitive: bool,
    pub file_only: bool,
    pub folder_only: bool,
    pub match_path: bool,
    pub whole_filename: bool,
    pub whole_word: bool,
}

/// A regular-expression literal with its modifiers.
#[derive(Debug)]
pub struct RegexQuery {
    pub pattern: regex::Regex,
    pub case_sensitive: bool,
    pub diacritics_sensitive: bool,
    pub match_path: bool,
}

/// A literal to match against a file name or full path.
#[derive(Debug)]
pub enum QueryLiteral {
    Text(TextQuery),
    Regex(RegexQuery),
}

/// A query expression: literals and predicates under boolean operators.
#[derive(Debug)]
pub enum QueryExpr {
    Literal(QueryLiteral),
    Function(QueryFunction),
    And(Box<QueryExpr>, Box<QueryExpr>),
    Or(Box<QueryExpr>, Box<QueryExpr>),
    Not(Box<QueryExpr>),
}

/// A predicate on one field of an entry.
#[derive(Debug, Clone, PartialEq)]
pub enum QueryFunction {
    Size(QueryCmp, u64),
    DateModified(QueryCmp, QueryDate),
    DateCreated(QueryCmp, QueryDate),
    Parent(String),
    Path(String),
    Ext(Vec<String>),
}

/// A comparison: equal, greater, at least, less, at most, or a closed range.
#[derive(Debug, Clone, PartialEq)]
pub enum QueryCmp {
    Eq,
    Gt,
    Ge,
    Lt,
    Le,
    Range,
}

/// The comparison an operator spells; anything unknown means equality.
pub open spec fn cmp_of(s: Seq<char>) -> QueryCmp {
    if s == seq!['>'] {
        QueryCmp::Gt
    } else if s == seq!['>', '='] {
        QueryCmp::Ge
    } else if s == seq!['<'] {
        QueryCmp::Lt
    } else if s == seq!['<', '='] {
        QueryCmp::Le
    } else if s == seq!['.', '.'] {
        QueryCmp::Range
    } else {
        QueryCmp::Eq
    }
}

impl<'a> From<&'a str> for QueryCmp {
    fn from(s: &'a str) -> (r: QueryCmp)
        ensures
            r == cmp_of(s@),
    {
        let c = chars_of(s);
        proof {
            let v = c@;
            if v == seq!['>'] || v == seq!['<'] {
                assert(v.len() == 1);
            }
            if v == seq!['>', '='] || v == seq!['<', '='] || v == seq!['.', '.'] {
                assert(v.len() == 2);
            }
            if v == seq!['>'] {
                assert(v[0] == '>');
            }
            if v == seq!['<'] {
                assert(v[0] == '<');
            }
            if v == seq!['>', '='] {
                assert(v[0] == '>' && v[1] == '=');
            }
            if v == seq!['<', '='] {
                assert(v[0] == '<' && v[1] == '=');
            }
            if v == seq!['.', '.'] {
                assert(v[0] == '.' && v[1] == '.');
            }
        }
        if c.len() == 1 && c[0] == '>' {
            assert(c@ =~= seq!['>']);
            QueryCmp::Gt
        } else if c.len() == 1 && c[0] == '<' {
            assert(c@ =~= seq!['<']);
            QueryCmp::Lt
        } else if c.len() == 2 && c[0] == '>' && c[1] == '=' {
            assert(c@ =~= seq!['>', '=']);
            QueryCmp::Ge
        } else if c.len() == 2 && c[0] == '<' && c[1] == '=' {
            assert(c@ =~= seq!['<', '=']);
            QueryCmp::Le
        } else if c.len() == 2 && c[0] == '.' && c[1] == '.' {
            assert(c@ =~= seq!['.', '.']);
            QueryCmp::Range
        } else {
            QueryCmp::Eq
        }
    }
}

impl<'a> vstd::std_specs::convert::FromSpecImpl<&'a str> for QueryCmp {
    open spec fn obeys_from_spec() -> bool {
        true
    }

    open spec fn from_spec(s: &'a str) -> QueryCmp {
        cmp_of(s@)
    }
}

/// A day of the week.
#[derive(Debug, Clone, Copy, PartialEq, Eq)]
pub enum Weekday {
    Sunday,
    Monday,
    Tuesday,
    Wednesday,
    Thursday,
    Friday,
    Saturday,
}

impl Weekday {
    /// The day's number, Sunday being 0 and Saturday 6.
    pub fn number(self) -> (n: u8)
        ensures
            n == match self {
                Weekday::Sunday => 0u8,
                Weekday::Monday => 1u8,
                Weekday::Tuesday => 2u8,
                Weekday::Wednesday => 3u8,
                Weekday::Thursday => 4u8,
                Weekday::Friday => 5u8,
                Weekday::Saturday => 6u8,
            },
    {
        match self {
            Weekday::Sunday => 0,
            Weekday::Monday => 1,
            Weekday::Tuesday => 2,
            Weekday::Wednesday => 3,
            Weekday::Thursday => 4,
            Weekday::Friday => 5,
            Weekday::Saturday => 6,
        }
    }
}

/// A month of the year.
#[derive(Debug, Clone, Copy, PartialEq, Eq)]
pub enum Month {
    January,
    February,
    March,
    April,
    May,
    June,
    July,
    August,
    September,
    October,
    November,
    December,
}

impl Month {
    /// The month's number, January being 1 and December 12.
    pub fn number(self) -> (n: u8)
        ensures
            n == match self {
                Month::January => 1u8,
                Month::February => 2u8,
                Month::March => 3u8,
                Month::April => 4u8,
                Month::May => 5u8,
                Month::June => 6u8,
                Month::July => 7u8,
                Month::August => 8u8,
                Month::September => 9u8,
                Month::October => 10u8,
                Month::November => 11u8,
                Month::December => 12u8,
            },
    {
        match self {
            Month::January => 1,
            Month::February => 2,
            Month::March => 3,
            Month::April => 4,
            Month::May => 5,
            Month::June => 6,
            Month::July => 7,
            Month::August => 8,
            Month::September => 9,
            Month::October => 10,
            Month::November => 11,
            Month::December => 12,
        }
    }
}

/// A date condition: an inclusive range of timestamps, a weekday, a month,
/// or unknown.
#[derive(Debug, Clone, PartialEq)]
pub enum QueryDate {
    Range(i64, i64),
    Weekday(Weekday),
    Month(Month),
    Unknown,
}

} // verus!
