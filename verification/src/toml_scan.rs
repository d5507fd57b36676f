//! Finding where a TOML array value ends: the `]` that closes the `[` it
//! starts with, skipping brackets inside strings and comments and nested
//! arrays.
use vstd::prelude::*;

verus! {

/// What the scanner is in the middle of.
#[derive(Debug, Clone, Copy, PartialEq, Eq, Structural)]
pub enum Lex {
    /// Values, commas, brackets and white space.
    Code,
    /// A `#` comment, up to the end of its line.
    Comment,
    /// A basic string `"..."`.
    Basic,
    /// The character after a `\` in a basic string.
    BasicEscape,
    /// A literal string `'...'`.
    Literal,
    /// A multi-line basic string `"""..."""`.
    MlBasic,
    /// The character after a `\` in a multi-line basic string.
    MlBasicEscape,
    /// A multi-line literal string `'''...'''`.
    MlLiteral,
}

/// Whether `c` stands three times in a row from `i` on.
pub open spec fn is_triple(s: Seq<char>, i: int, c: char) -> bool {
    0 <= i && i + 2 < s.len() && s[i] == c && s[i + 1] == c && s[i + 2] == c
}

/// Scanning `s` from position `i` in state `lex`, inside `depth` open
/// brackets: the position of the `]` that closes the outermost bracket, or -1
/// where the text ends first. A basic or literal string also ends at a line
/// break (which TOML does not allow inside one).
pub open spec fn array_close(s: Seq<char>, i: int, lex: Lex, depth: int) -> int
    decreases s.len() - i,
{
    if i < 0 || i >= s.len() {
        -1
    } else {
        let c = s[i];
        match lex {
            Lex::Code => if c == '[' {
                array_close(s, i + 1, Lex::Code, depth + 1)
            } else if c == ']' {
                if depth <= 1 {
                    i
                } else {
                    array_close(s, i + 1, Lex::Code, depth - 1)
                }
            } else if c == '#' {
                array_close(s, i + 1, Lex::Comment, depth)
            } else if c == '"' {
                if is_triple(s, i, '"') {
                    array_close(s, i + 3, Lex::MlBasic, depth)
                } else {
                    array_close(s, i + 1, Lex::Basic, depth)
                }
            } else if c == '\'' {
                if is_triple(s, i, '\'') {
                    array_close(s, i + 3, Lex::MlLiteral, depth)
                } else {
                    array_close(s, i + 1, Lex::Literal, depth)
                }
            } else {
                array_close(s, i + 1, Lex::Code, depth)
            },
            Lex::Comment => if c == '\n' {
                array_close(s, i + 1, Lex::Code, depth)
            } else {
                array_close(s, i + 1, Lex::Comment, depth)
            },
            Lex::Basic => if c == '\\' {
                array_close(s, i + 1, Lex::BasicEscape, depth)
            } else if c == '"' || c == '\n' {
                array_close(s, i + 1, Lex::Code, depth)
            } else {
                array_close(s, i + 1, Lex::Basic, depth)
            },
            Lex::BasicEscape => array_close(s, i + 1, Lex::Basic, depth),
            Lex::Literal => if c == '\'' || c == '\n' {
                array_close(s, i + 1, Lex::Code, depth)
            } else {
                array_close(s, i + 1, Lex::Literal, depth)
            },
            Lex::MlBasic => if c == '\\' {
                array_close(s, i + 1, Lex::MlBasicEscape, depth)
            } else if is_triple(s, i, '"') {
                array_close(s, i + 3, Lex::Code, depth)
            } else {
                array_close(s, i + 1, Lex::MlBasic, depth)
            },
            Lex::MlBasicEscape => array_close(s, i + 1, Lex::MlBasic, depth),
            Lex::MlLiteral => if is_triple(s, i, '\'') {
                array_close(s, i + 3, Lex::Code, depth)
            } else {
                array_close(s, i + 1, Lex::MlLiteral, depth)
            },
        }
    }
}

/// The position, from `j` on, where a basic string whose opening quote is
/// already behind ends: its closing `"` (or a line break), skipping escaped
/// characters; -1 where the text ends first.
pub open spec fn string_end(q: Seq<char>, j: int) -> int
    decreases q.len() - j,
{
    if j < 0 || j >= q.len() {
        -1
    } else if q[j] == '\\' {
        if j + 2 > q.len() {
            -1
        } else {
            string_end(q, j + 2)
        }
    } else if q[j] == '"' || q[j] == '\n' {
        j
    } else {
        string_end(q, j + 1)
    }
}

/// A complete basic string on one line: it opens with `"`, and the first
/// unescaped `"` is its last character.
pub open spec fn is_closed_string(q: Seq<char>) -> bool {
    &&& q.len() >= 2
    &&& q[0] == '"'
    &&& string_end(q, 1) == q.len() - 1
    &&& !q.contains('\n')
}

/// The position of the `]` closing the array that starts at `open` (a `[`),
/// or `None` where the text ends first.
pub fn array_close_of(text: &Vec<char>, open: usize) -> (r: Option<usize>)
    requires
        open < text.len(),
        text@[open as int] == '[',
    ensures
        match r {
            Some(c) => c == array_close(text@, open as int, Lex::Code, 0) && open <= c < text.len(),
            None => array_close(text@, open as int, Lex::Code, 0) == -1,
        },
{
    let ghost s = text@;
    let n = text.len();
    let mut i = open;
    let mut lex = Lex::Code;
    let mut depth: usize = 0;
    while i < n
        invariant
            s == text@,
            n == text.len(),
            open <= i,
            depth <= i,
            array_close(s, open as int, Lex::Code, 0) == array_close(s, i as int, lex, depth as int),
        decreases n - i,
    {
        let c = text[i];
        let triple_dq = n - i > 2 && text[i + 1] == '"' && text[i + 2] == '"' && c == '"';
        let triple_sq = n - i > 2 && text[i + 1] == '\'' && text[i + 2] == '\'' && c == '\'';
        assert(triple_dq == is_triple(s, i as int, '"'));
        assert(triple_sq == is_triple(s, i as int, '\''));
        match lex {
            Lex::Code => {
                if c == '[' {
                    depth = depth + 1;
                    i = i + 1;
                } else if c == ']' {
                    if depth <= 1 {
                        return Some(i);
                    }
                    depth = depth - 1;
                    i = i + 1;
                } else if c == '#' {
                    lex = Lex::Comment;
                    i = i + 1;
                } else if c == '"' {
                    if triple_dq {
                        lex = Lex::MlBasic;
                        i = i + 3;
                    } else {
                        lex = Lex::Basic;
                        i = i + 1;
                    }
                } else if c == '\'' {
                    if triple_sq {
                        lex = Lex::MlLiteral;
                        i = i + 3;
                    } else {
                        lex = Lex::Literal;
                        i = i + 1;
                    }
                } else {
                    i = i + 1;
                }
            },
            Lex::Comment => {
                if c == '\n' {
                    lex = Lex::Code;
                }
                i = i + 1;
            },
            Lex::Basic => {
                if c == '\\' {
                    lex = Lex::BasicEscape;
                } else if c == '"' || c == '\n' {
                    lex = Lex::Code;
                }
                i = i + 1;
            },
            Lex::BasicEscape => {
                lex = Lex::Basic;
                i = i + 1;
            },
            Lex::Literal => {
                if c == '\'' || c == '\n' {
                    lex = Lex::Code;
                }
                i = i + 1;
            },
            Lex::MlBasic => {
                if c == '\\' {
                    lex = Lex::MlBasicEscape;
                    i = i + 1;
                } else if triple_dq {
                    lex = Lex::Code;
                    i = i + 3;
                } else {
                    i = i + 1;
                }
            },
            Lex::MlBasicEscape => {
                lex = Lex::MlBasic;
                i = i + 1;
            },
            Lex::MlLiteral => {
                if triple_sq {
                    lex = Lex::Code;
                    i = i + 3;
                } else {
                    i = i + 1;
                }
            },
        }
    }
    None
}

/// Scanning over a complete basic string leaves the scanner where it was.
pub proof fn lemma_scan_string(s: Seq<char>, k: int, q: Seq<char>, depth: int)
    requires
        0 <= k,
        k + q.len() < s.len(),
        s.subrange(k, k + q.len()) == q,
        is_closed_string(q),
        s[k + q.len()] != '"',
    ensures
        array_close(s, k, Lex::Code, depth) == array_close(s, k + q.len(), Lex::Code, depth),
{
    assert(s[k] == q[0]);
    assert(s[k + 1] == q[1]);
    if q.len() >= 3 {
        assert(s[k + 2] == q[2]);
    }
    assert(!is_triple(s, k, '"'));
    lemma_scan_in_string(s, k, q, 1, depth);
}

proof fn lemma_scan_in_string(s: Seq<char>, k: int, q: Seq<char>, j: int, depth: int)
    requires
        0 <= k,
        k + q.len() < s.len(),
        s.subrange(k, k + q.len()) == q,
        1 <= j <= q.len() - 1,
        string_end(q, j) == q.len() - 1,
    ensures
        array_close(s, k + j, Lex::Basic, depth) == array_close(s, k + q.len(), Lex::Code, depth),
    decreases q.len() - j,
{
    assert(s[k + j] == q[j]);
    if q[j] == '\\' {
        assert(string_end(q, j + 2) == q.len() - 1);
        assert(j + 2 <= q.len() - 1);
        assert(array_close(s, k + j + 1, Lex::BasicEscape, depth) == array_close(
            s,
            k + j + 2,
            Lex::Basic,
            depth,
        ));
        lemma_scan_in_string(s, k, q, j + 2, depth);
    } else if q[j] == '"' || q[j] == '\n' {
    } else {
        assert(string_end(q, j + 1) == q.len() - 1);
        assert(j + 1 <= q.len() - 1);
        lemma_scan_in_string(s, k, q, j + 1, depth);
    }
}

} // verus!
