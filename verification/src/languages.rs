//! Rewriting the `languages = [...]` assignment of a `config.toml` text. The
//! text before the assignment's line and the text after the `]` that closes
//! its array are kept exactly as they were, line endings and comments
//! included.
use vstd::prelude::*;
use vstd::string::StringExecFns;
use crate::lines::{
    copy_range, index_of_char, lemma_index_of_char_at,
    lemma_index_of_char_none, lemma_line_end, line_end, line_end_of, push_range,
    is_white_space, skip_white_space, trim_start,
};
use crate::text::{chars_of, push_char, texts};
use crate::toml_scan::{
    array_close, array_close_of, is_closed_string, lemma_scan_string, Lex,
};

verus! {

/// What `format!("{:?}", s)` gives for a string with characters `s`:
/// std's `Debug` rendering of a `str`, a quoted and escaped literal.
pub uninterp spec fn debug_quoted(s: Seq<char>) -> Seq<char>;

/// std's `Debug` formatting of a string (`format!("{:?}", s)`). Its result is
/// named `debug_quoted` of the string's characters. Of it, this states what
/// std documents for `Debug` of `str`: the text is written between double
/// quotes with `char::escape_debug` escapes, so `"` and `\` inside it are
/// escaped with a backslash and line breaks are written as `\n` (`\r`). It is
/// therefore one complete basic string on one line. Which other characters
/// are escaped, and how, is left unstated.
#[verifier::external_body]
fn quoted(s: &String) -> (r: String)
    ensures
        r@ == debug_quoted(s@),
        is_closed_string(r@),
{
    format!("{:?}", s)
}

/// `items` with `sep` between each two of them.
pub open spec fn join_with(items: Seq<Seq<char>>, sep: Seq<char>) -> Seq<char>
    decreases items.len(),
{
    if items.len() == 0 {
        seq![]
    } else if items.len() == 1 {
        items[0]
    } else {
        join_with(items.drop_last(), sep) + sep + items.last()
    }
}

/// The quoted form of each language name.
pub open spec fn quoted_names(langs: Seq<Seq<char>>) -> Seq<Seq<char>> {
    langs.map_values(|l: Seq<char>| debug_quoted(l))
}

/// The single line `languages = [A, B]` for the quoted names `A`, `B`.
pub open spec fn assignment_line(quoted: Seq<Seq<char>>) -> Seq<char> {
    "languages = ["@ + join_with(quoted, ", "@) + "]"@
}

/// A line that assigns the `languages` key: after leading white space it
/// starts with `languages`, and the next character that is not white space
/// is `=`. Commented-out lines and keys such as `languages_extra` are not.
pub open spec fn is_assignment(line: Seq<char>) -> bool {
    let key = trim_start(line);
    &&& key.len() >= 9
    &&& key.take(9) == "languages"@
    &&& trim_start(key.skip(9)).len() > 0
    &&& trim_start(key.skip(9))[0] == '='
}

/// The first line, from the line that starts at `x` on, that assigns
/// `languages`: the position where it starts, or -1 where there is none.
pub open spec fn first_assignment_from(text: Seq<char>, x: int) -> int
    decreases text.len() - x,
{
    if x < 0 || x >= text.len() {
        -1
    } else {
        let e = line_end(text, x);
        proof {
            lemma_line_end(text, x);
        }
        if is_assignment(text.subrange(x, e)) {
            x
        } else if e >= text.len() {
            -1
        } else {
            first_assignment_from(text, e + 1)
        }
    }
}

/// Where the value of the assignment whose line starts at `a` begins: right
/// after the line's first `=`.
pub open spec fn value_position(text: Seq<char>, a: int) -> int {
    a + index_of_char(text.subrange(a, line_end(text, a)), '=') + 1
}

/// The first position from `v` on that is not white space.
pub open spec fn after_space(text: Seq<char>, v: int) -> int {
    text.len() - trim_start(text.skip(v)).len()
}

/// Where the assignment whose line starts at `a` ends (exclusive): after the
/// `]` that closes its array (which may start on a later line), or, for a
/// value that is not an array, at the end of its line (before a `\r\n`). -1
/// where the array is never closed.
pub open spec fn assignment_end(text: Seq<char>, a: int) -> int {
    let e = line_end(text, a);
    let p = after_space(text, value_position(text, a));
    if p < text.len() && text[p] == '[' {
        let c = array_close(text, p, Lex::Code, 0);
        if c < 0 {
            -1
        } else {
            c + 1
        }
    } else if e > a && text[e - 1] == '\r' {
        e - 1
    } else {
        e
    }
}

/// Whether a text ends with an empty line.
pub open spec fn ends_with_blank_line(s: Seq<char>) -> bool {
    ||| s.len() >= 2 && s[s.len() - 1] == '\n' && s[s.len() - 2] == '\n'
    ||| s.len() >= 3 && s[s.len() - 1] == '\n' && s[s.len() - 2] == '\r' && s[s.len() - 3] == '\n'
}

/// The text with its last line ended by `\n`.
pub open spec fn terminated(text: Seq<char>) -> Seq<char> {
    if text.len() > 0 && text.last() != '\n' {
        text.push('\n')
    } else {
        text
    }
}

/// What is kept in front of the new assignment line: the text up to the
/// first assignment's line; where there is none, the whole text (its last
/// line ended) and an empty line, unless the text is empty or already ends
/// with an empty line.
pub open spec fn kept_before(text: Seq<char>) -> Seq<char> {
    let a = first_assignment_from(text, 0);
    if a >= 0 {
        text.take(a)
    } else {
        let body = terminated(text);
        if body.len() > 0 && !ends_with_blank_line(body) {
            body.push('\n')
        } else {
            body
        }
    }
}

/// What is kept after the new assignment line: the text after the old
/// assignment (from right after its closing `]`, so the rest of that line is
/// kept too); a line break where the assignment was appended or its array
/// ran to the end of the text.
pub open spec fn kept_after(text: Seq<char>) -> Seq<char> {
    let a = first_assignment_from(text, 0);
    if a >= 0 && assignment_end(text, a) >= 0 {
        text.skip(assignment_end(text, a))
    } else {
        seq!['\n']
    }
}

/// The text with `line` in place of its first `languages` assignment, or with
/// `line` appended where there is none.
pub open spec fn with_assignment(text: Seq<char>, line: Seq<char>) -> Seq<char> {
    kept_before(text) + line + kept_after(text)
}

/// The text with `langs` (names, unquoted) as its language list.
pub open spec fn with_languages(text: Seq<char>, langs: Seq<Seq<char>>) -> Seq<char> {
    with_assignment(text, assignment_line(quoted_names(langs)))
}

/// Whether `word` stands in `v` from position `at` on.
fn matches_at(v: &Vec<char>, at: usize, word: &Vec<char>) -> (r: bool)
    requires
        at <= v.len(),
    ensures
        r == (word.len() <= v.len() - at && v@.subrange(at as int, at + word.len()) == word@),
{
    if word.len() > v.len() - at {
        return false;
    }
    let mut m: usize = 0;
    while m < word.len()
        invariant
            word.len() <= v.len() - at,
            m <= word.len(),
            forall|q: int| 0 <= q < m ==> v@[at + q] == word@[q],
        decreases word.len() - m,
    {
        if v[at + m] != word[m] {
            assert(v@.subrange(at as int, at + word.len())[m as int] != word@[m as int]);
            return false;
        }
        m += 1;
    }
    assert(v@.subrange(at as int, at + word.len()) =~= word@);
    true
}

/// Whether a line assigns the `languages` key.
fn is_assignment_of(line: &Vec<char>) -> (r: bool)
    ensures
        r == is_assignment(line@),
{
    let word = chars_of("languages");
    proof {
        reveal_strlit("languages");
    }
    assert(word@.len() == 9);
    let i = skip_white_space(line, 0);
    assert(line@.skip(0) =~= line@);
    let ghost key = line@.skip(i as int);
    if !matches_at(line, i, &word) {
        assert(key.len() >= 9 ==> key.take(9) =~= line@.subrange(i as int, i + 9));
        return false;
    }
    assert(key.take(9) =~= line@.subrange(i as int, i + 9));
    assert(key.skip(9) =~= line@.skip(i + 9));
    let e = skip_white_space(line, i + 9);
    e < line.len() && line[e] == '='
}

/// Where the text after the first `=` of a line starts (0 where there is none).
fn value_start(line: &Vec<char>) -> (s: usize)
    ensures
        s == index_of_char(line@, '=') + 1,
        s <= line.len(),
{
    let mut p: usize = 0;
    while p < line.len() && line[p] != '='
        invariant
            p <= line.len(),
            forall|q: int| 0 <= q < p ==> line@[q] != '=',
        decreases line.len() - p,
    {
        p += 1;
    }
    if p < line.len() {
        proof {
            lemma_index_of_char_at(line@, '=', p as int);
        }
        p + 1
    } else {
        proof {
            lemma_index_of_char_none(line@, '=');
        }
        0
    }
}

/// The start of the first line that assigns `languages`.
fn find_assignment(text: &Vec<char>) -> (r: Option<usize>)
    ensures
        match r {
            Some(a) => first_assignment_from(text@, 0) == a && a < text.len(),
            None => first_assignment_from(text@, 0) == -1,
        },
{
    let n = text.len();
    let mut x: usize = 0;
    while x < n
        invariant
            x <= n,
            n == text.len(),
            first_assignment_from(text@, 0) == first_assignment_from(text@, x as int),
        decreases n - x,
    {
        let e = line_end_of(text, x);
        let line = copy_range(text, x, e);
        if is_assignment_of(&line) {
            return Some(x);
        }
        if e >= n {
            return None;
        }
        x = e + 1;
    }
    None
}

/// Where the assignment whose line starts at `a` ends (see
/// `assignment_end`); `None` where its array is never closed.
fn assignment_end_of(text: &Vec<char>, a: usize) -> (r: Option<usize>)
    requires
        a < text.len(),
    ensures
        match r {
            Some(end) => end == assignment_end(text@, a as int) && a <= end <= text.len(),
            None => assignment_end(text@, a as int) == -1,
        },
{
    let e = line_end_of(text, a);
    let line = copy_range(text, a, e);
    let v = a + value_start(&line);
    let p = skip_white_space(text, v);
    let n = text.len();
    assert(text@.skip(p as int).len() == text.len() - p);
    if p < n && text[p] == '[' {
        match array_close_of(text, p) {
            Some(c) => Some(c + 1),
            None => None,
        }
    } else if e > a && text[e - 1] == '\r' {
        Some(e - 1)
    } else {
        Some(e)
    }
}

/// The `languages = [...]` line for names that are already quoted.
fn assignment_text(quoted: &[String]) -> (r: String)
    ensures
        r@ == assignment_line(texts(quoted@)),
{
    let ghost names = texts(quoted@);
    let mut r = "languages = [".to_owned();
    let mut i: usize = 0;
    assert(names.take(0) =~= seq![]);
    while i < quoted.len()
        invariant
            i <= quoted.len(),
            names == texts(quoted@),
            names.len() == quoted@.len(),
            r@ == "languages = ["@ + join_with(names.take(i as int), ", "@),
        decreases quoted.len() - i,
    {
        if i > 0 {
            r.append(", ");
        }
        r.append(quoted[i].as_str());
        proof {
            assert(names[i as int] == quoted@[i as int]@);
            let t = names.take(i + 1);
            assert(t.drop_last() =~= names.take(i as int));
            assert(t.last() == quoted@[i as int]@);
            if i == 0 {
                assert(names.take(0) =~= seq![]);
            }
            assert(r@ =~= "languages = ["@ + join_with(t, ", "@));
        }
        i += 1;
    }
    r.append("]");
    assert(names.take(quoted.len() as int) =~= names);
    r
}

/// A `String` holding the characters of `v`.
fn string_of(v: &Vec<char>) -> (s: String)
    ensures
        s@ == v@,
{
    let mut s = String::new();
    let mut i: usize = 0;
    while i < v.len()
        invariant
            i <= v.len(),
            s@ == v@.take(i as int),
        decreases v.len() - i,
    {
        push_char(&mut s, v[i]);
        i += 1;
        assert(s@ =~= v@.take(i as int));
    }
    assert(v@.take(v.len() as int) =~= v@);
    s
}

/// Replaces the first `languages = ...` assignment of a TOML document (its
/// array may run over several lines) with `languages = [...]` of the given
/// names, written as they are (already quoted), or appends that line where
/// there is none. Everything before the assignment's line and after its
/// closing `]` is kept as it was.
pub fn replace_quoted_languages(toml: &str, quoted: &[String]) -> (out: String)
    ensures
        out@ == with_assignment(toml@, assignment_line(texts(quoted@))),
{
    let rendered_text = assignment_text(quoted);
    let rendered = chars_of(rendered_text.as_str());
    let text = chars_of(toml);
    let n = text.len();
    let mut out: Vec<char> = Vec::new();
    match find_assignment(&text) {
        Some(a) => {
            push_range(&mut out, &text, 0, a);
            push_range(&mut out, &rendered, 0, rendered.len());
            match assignment_end_of(&text, a) {
                Some(end) => {
                    push_range(&mut out, &text, end, n);
                    assert(text@.subrange(end as int, n as int) =~= text@.skip(end as int));
                },
                None => {
                    out.push('\n');
                },
            }
            assert(text@.subrange(0, a as int) =~= text@.take(a as int));
        },
        None => {
            push_range(&mut out, &text, 0, n);
            if n > 0 && text[n - 1] != '\n' {
                out.push('\n');
            }
            assert(out@ =~= terminated(text@));
            let m = out.len();
            let blank = (m >= 2 && out[m - 1] == '\n' && out[m - 2] == '\n') || (m >= 3 && out[m - 1]
                == '\n' && out[m - 2] == '\r' && out[m - 3] == '\n');
            if m > 0 && !blank {
                out.push('\n');
            }
            push_range(&mut out, &rendered, 0, rendered.len());
            out.push('\n');
        },
    }
    assert(rendered@.subrange(0, rendered.len() as int) =~= rendered@);
    assert(out@ =~= with_assignment(text@, rendered@));
    string_of(&out)
}

/// Replaces the `languages = [...]` assignment (on one line or several) in a
/// TOML document, or appends one where there is none, with the given names
/// written as quoted TOML strings.
///
/// The written list is what a later read finds: the first `languages`
/// assignment of the result is the new line, and its array closes on that
/// line. Writing the same list again changes nothing.
pub fn replace_languages(toml: &str, languages: &[String]) -> (out: String)
    ensures
        out@ == with_languages(toml@, texts(languages@)),
        forall|k: int|
            0 <= k < languages@.len() ==> is_closed_string(
                #[trigger] debug_quoted(languages@[k]@),
            ),
        first_assignment_from(out@, 0) == written_position(toml@),
        assignment_end(out@, written_position(toml@)) == written_position(toml@) + assignment_line(
            quoted_names(texts(languages@)),
        ).len(),
        with_languages(out@, texts(languages@)) == out@,
{
    let mut quoted_list: Vec<String> = Vec::new();
    let mut i: usize = 0;
    while i < languages.len()
        invariant
            i <= languages.len(),
            texts(quoted_list@) == quoted_names(texts(languages@)).take(i as int),
            forall|k: int| 0 <= k < i ==> is_closed_string(#[trigger] debug_quoted(languages@[k]@)),
        decreases languages.len() - i,
    {
        let q = quoted(&languages[i]);
        assert(q@ == debug_quoted(languages@[i as int]@));
        let ghost before = quoted_list@;
        quoted_list.push(q);
        proof {
            assert(quoted_list@ == before.push(q));
            assert(texts(quoted_list@) =~= texts(before).push(q@));
            assert(quoted_names(texts(languages@))[i as int] == debug_quoted(languages@[i as int]@));
            assert(texts(quoted_list@) =~= quoted_names(texts(languages@)).take(i + 1));
        }
        i += 1;
    }
    let ghost names = quoted_names(texts(languages@));
    assert(names.take(languages.len() as int) =~= names);
    proof {
        assert forall|k: int| 0 <= k < names.len() implies is_closed_string(#[trigger] names[k]) by {
            assert(names[k] == debug_quoted(languages@[k]@));
        }
        lemma_written_line_is_read_back(toml@, names);
        lemma_languages_override(toml@, texts(languages@), texts(languages@));
    }
    replace_quoted_languages(toml, quoted_list.as_slice())
}

/// Writing one language list and then another gives the same document as
/// writing the second one alone; writing the same list twice changes nothing.
/// This holds for every first list whose names std quotes as complete
/// strings, which `replace_languages` ensures of every list it writes.
pub proof fn lemma_languages_override(text: Seq<char>, first: Seq<Seq<char>>, second: Seq<Seq<char>>)
    requires
        forall|k: int| 0 <= k < first.len() ==> is_closed_string(#[trigger] debug_quoted(first[k])),
    ensures
        with_languages(with_languages(text, first), second) == with_languages(text, second),
{
    let names = quoted_names(first);
    assert forall|k: int| 0 <= k < names.len() implies is_closed_string(#[trigger] names[k]) by {
        assert(names[k] == debug_quoted(first[k]));
    }
    lemma_rewrite_overrides(text, names, quoted_names(second));
}

/// Leading white space does not change where a text's content starts.
proof fn lemma_trim_white_prefix(ws: Seq<char>, x: Seq<char>)
    requires
        forall|i: int| 0 <= i < ws.len() ==> is_white_space(#[trigger] ws[i]),
    ensures
        trim_start(ws + x) == trim_start(x),
    decreases ws.len(),
{
    if ws.len() > 0 {
        assert((ws + x)[0] == ws[0]);
        assert((ws + x).drop_first() =~= ws.drop_first() + x);
        assert forall|i: int| 0 <= i < ws.drop_first().len() implies is_white_space(
            #[trigger] ws.drop_first()[i],
        ) by {
            assert(ws.drop_first()[i] == ws[i + 1]);
        }
        lemma_trim_white_prefix(ws.drop_first(), x);
    } else {
        assert(ws + x =~= x);
    }
}

/// A line is the `languages` assignment exactly by its key: after any leading
/// white space it reads `languages`, any white space (none included), `=`,
/// and then anything. A line where `languages` is followed by another
/// character (`languages_extra = 1`, `languagesX`) is not.
pub proof fn lemma_assignment_lines(ws: Seq<char>, gap: Seq<char>, value: Seq<char>, c: char)
    requires
        forall|i: int| 0 <= i < ws.len() ==> is_white_space(#[trigger] ws[i]),
        forall|i: int| 0 <= i < gap.len() ==> is_white_space(#[trigger] gap[i]),
    ensures
        is_assignment(ws + "languages"@ + gap + "="@ + value),
        !is_white_space(c) && c != '=' ==> !is_assignment(ws + "languages"@ + seq![c] + value),
{
    reveal_strlit("languages");
    reveal_strlit("=");
    let word = "languages"@;
    assert(word.len() == 9);
    assert(!is_white_space(word[0]));
    let key = word + gap + "="@ + value;
    assert(ws + "languages"@ + gap + "="@ + value =~= ws + key);
    lemma_trim_white_prefix(ws, key);
    assert(key[0] == 'l');
    assert(trim_start(key) == key);
    assert(key.take(9) =~= word);
    let after = "="@ + value;
    assert(key.skip(9) =~= gap + after);
    lemma_trim_white_prefix(gap, after);
    assert(after[0] == '=');
    assert(trim_start(after) == after);
    assert(trim_start(key.skip(9))[0] == '=');

    let other = word + seq![c] + value;
    assert(ws + "languages"@ + seq![c] + value =~= ws + other);
    lemma_trim_white_prefix(ws, other);
    assert(other[0] == 'l');
    assert(trim_start(other) == other);
    assert(other.skip(9) =~= seq![c] + value);
    assert(other.skip(9)[0] == c);
    if !is_white_space(c) && c != '=' {
        assert(trim_start(other.skip(9)) == other.skip(9));
    }
}

/// `trim_start` drops exactly the white space the text starts with.
proof fn lemma_trim_start_shape(s: Seq<char>)
    ensures
        trim_start(s).len() <= s.len(),
        trim_start(s) == s.skip(s.len() - trim_start(s).len()),
        forall|i: int| 0 <= i < s.len() - trim_start(s).len() ==> is_white_space(#[trigger] s[i]),
        trim_start(s).len() > 0 ==> !is_white_space(trim_start(s)[0]),
    decreases s.len(),
{
    if s.len() > 0 && is_white_space(s[0]) {
        lemma_trim_start_shape(s.drop_first());
        let t = trim_start(s.drop_first());
        assert(s.drop_first().skip(s.drop_first().len() - t.len()) =~= s.skip(s.len() - t.len()));
        assert forall|i: int| 0 <= i < s.len() - t.len() implies is_white_space(#[trigger] s[i]) by {
            if i > 0 {
                assert(s[i] == s.drop_first()[i - 1]);
            }
        }
    } else {
        assert(s.skip(0) =~= s);
    }
}

/// Every line that counts as the `languages` assignment has that shape:
/// leading white space, `languages`, white space (maybe none), `=`, value.
pub proof fn lemma_assignment_lines_have_the_key(line: Seq<char>)
    requires
        is_assignment(line),
    ensures
        exists|ws: Seq<char>, gap: Seq<char>, value: Seq<char>|
            #![auto]
            (forall|i: int| 0 <= i < ws.len() ==> is_white_space(#[trigger] ws[i])) && (forall|i: int|
                0 <= i < gap.len() ==> is_white_space(#[trigger] gap[i])) && line == ws
                + "languages"@ + gap + "="@ + value,
{
    reveal_strlit("languages");
    reveal_strlit("=");
    lemma_trim_start_shape(line);
    let key = trim_start(line);
    let d1 = line.len() - key.len();
    let ws = line.take(d1);
    let rest = key.skip(9);
    lemma_trim_start_shape(rest);
    let t = trim_start(rest);
    let d2 = rest.len() - t.len();
    let gap = rest.take(d2);
    let value = t.drop_first();
    assert forall|i: int| 0 <= i < ws.len() implies is_white_space(#[trigger] ws[i]) by {
        assert(ws[i] == line[i]);
    }
    assert forall|i: int| 0 <= i < gap.len() implies is_white_space(#[trigger] gap[i]) by {
        assert(gap[i] == rest[i]);
    }
    assert(t =~= "="@ + value);
    assert(rest =~= gap + t);
    assert(key =~= "languages"@ + rest);
    assert(line =~= ws + key);
    assert(line =~= ws + "languages"@ + gap + "="@ + value);
}

/// Where the `k`-th quoted name stands in a written assignment line.
pub open spec fn name_offset(quoted: Seq<Seq<char>>, k: int) -> int {
    13 + total_len(quoted.take(k)) + 2 * k
}

/// The `k`-th quoted name and the separator before it in the written line.
proof fn lemma_written_line_item(quoted: Seq<Seq<char>>, k: int)
    requires
        0 <= k < quoted.len(),
    ensures
        assignment_line(quoted).subrange(name_offset(quoted, k), name_offset(quoted, k)
            + quoted[k].len()) == quoted[k],
        k > 0 ==> assignment_line(quoted).subrange(name_offset(quoted, k) - 2, name_offset(quoted, k))
            == ", "@,
{
    reveal_strlit("languages = [");
    reveal_strlit(", ");
    let line = assignment_line(quoted);
    let head = "languages = ["@;
    let joined = join_with(quoted, ", "@);
    assert(line == head + joined + "]"@);
    assert(head.len() == 13);
    assert(", "@.len() == 2);
    lemma_join_with_item(quoted, ", "@, k);
    let o = total_len(quoted.take(k)) + 2 * k;
    assert(line.subrange(13 + o, 13 + o + quoted[k].len()) =~= joined.subrange(
        o,
        o + quoted[k].len(),
    ));
    if k > 0 {
        assert(line.subrange(13 + o - 2, 13 + o) =~= joined.subrange(o - 2, o));
    }
}

/// The written assignment line lists every quoted name, in order, with `, `
/// between each two, inside `languages = [` and `]`, and nothing else.
pub proof fn lemma_written_line_lists_every_name(quoted: Seq<Seq<char>>)
    ensures
        assignment_line(quoted).take(13) == "languages = ["@,
        assignment_line(quoted).last() == ']',
        assignment_line(quoted).len() == if quoted.len() == 0 {
            14
        } else {
            14 + total_len(quoted) + 2 * (quoted.len() - 1)
        },
        forall|k: int|
            0 <= k < quoted.len() ==> assignment_line(quoted).subrange(
                name_offset(quoted, k),
                name_offset(quoted, k) + quoted[k].len(),
            ) == #[trigger] quoted[k],
        forall|k: int|
            0 < k < quoted.len() ==> #[trigger] assignment_line(quoted).subrange(
                name_offset(quoted, k) - 2,
                name_offset(quoted, k),
            ) == ", "@,
{
    reveal_strlit("languages = [");
    reveal_strlit("]");
    reveal_strlit(", ");
    let line = assignment_line(quoted);
    let head = "languages = ["@;
    let joined = join_with(quoted, ", "@);
    assert(line == head + joined + "]"@);
    assert(head.len() == 13);
    assert(line.take(13) =~= head);
    assert(", "@.len() == 2);
    lemma_join_with_len(quoted, ", "@);
    assert forall|k: int| 0 <= k < quoted.len() implies line.subrange(
        name_offset(quoted, k),
        name_offset(quoted, k) + quoted[k].len(),
    ) == #[trigger] quoted[k] by {
        lemma_written_line_item(quoted, k);
    }
    assert forall|k: int| 0 < k < quoted.len() implies #[trigger] line.subrange(
        name_offset(quoted, k) - 2,
        name_offset(quoted, k),
    ) == ", "@ by {
        lemma_written_line_item(quoted, k);
    }
}

proof fn lemma_total_len_nonneg(items: Seq<Seq<char>>)
    ensures
        total_len(items) >= 0,
    decreases items.len(),
{
    if items.len() > 0 {
        lemma_total_len_nonneg(items.drop_last());
    }
}

/// The `k`-th item stands in the joined text after the items before it and
/// their separators, with a separator right before it.
proof fn lemma_join_with_item(items: Seq<Seq<char>>, sep: Seq<char>, k: int)
    requires
        sep.len() == 2,
        0 <= k < items.len(),
    ensures
        ({
            let o = total_len(items.take(k)) + 2 * k;
            let j = join_with(items, sep);
            &&& 0 <= o
            &&& o + items[k].len() <= j.len()
            &&& j.subrange(o, o + items[k].len()) == items[k]
            &&& k > 0 ==> o >= 2 && j.subrange(o - 2, o) == sep
        }),
    decreases items.len(),
{
    lemma_total_len_nonneg(items.take(k));
    let j = join_with(items, sep);
    let o = total_len(items.take(k)) + 2 * k;
    if items.len() == 1 {
        assert(items.take(0) =~= Seq::<Seq<char>>::empty());
        assert(total_len(Seq::<Seq<char>>::empty()) == 0);
        assert(j == items[0]);
        assert(j.subrange(0, items[0].len() as int) =~= items[0]);
    } else {
        let front = items.drop_last();
        let jf = join_with(front, sep);
        assert(j == jf + sep + items.last());
        if k < items.len() - 1 {
            lemma_join_with_item(front, sep, k);
            assert(front.take(k) =~= items.take(k));
            assert(front[k] == items[k]);
            assert(j.subrange(o, o + items[k].len()) =~= jf.subrange(o, o + front[k].len()));
            if k > 0 {
                assert(j.subrange(o - 2, o) =~= jf.subrange(o - 2, o));
            }
        } else {
            lemma_join_with_len(front, sep);
            lemma_total_len_nonneg(front);
            assert(items.take(k) =~= front);
            assert(jf.len() == total_len(front) + (front.len() - 1) * 2);
            assert(o == jf.len() + 2);
            assert(items[k] == items.last());
            assert(j.subrange(o, o + items[k].len()) =~= items.last());
            assert(j.subrange(o - 2, o) =~= sep);
        }
    }
}

/// Each name is written once, quoted, in the order given: the written list
/// has one entry per name.
pub proof fn lemma_every_name_is_written(langs: Seq<Seq<char>>)
    ensures
        quoted_names(langs).len() == langs.len(),
        forall|k: int| 0 <= k < langs.len() ==> #[trigger] quoted_names(langs)[k] == debug_quoted(langs[k]),
{
}

/// Joining keeps every item, in order, with the separator between each two:
/// the items up to `k` and those from `k` on, joined, make the whole.
pub proof fn lemma_join_with_split(items: Seq<Seq<char>>, sep: Seq<char>, k: int)
    requires
        0 < k < items.len(),
    ensures
        join_with(items, sep) == join_with(items.take(k), sep) + sep + join_with(items.skip(k), sep),
    decreases items.len(),
{
    if k == items.len() - 1 {
        assert(items.take(k) =~= items.drop_last());
        assert(items.skip(k) =~= seq![items.last()]);
        assert(join_with(items.skip(k), sep) == items.last());
    } else {
        let front = items.drop_last();
        lemma_join_with_split(front, sep, k);
        assert(front.take(k) =~= items.take(k));
        assert(items.skip(k).drop_last() =~= front.skip(k));
        assert(items.skip(k).last() == items.last());
        assert(items.skip(k).len() > 1);
        assert(join_with(items.skip(k), sep) == join_with(front.skip(k), sep) + sep + items.last());
    }
}

/// The joined text is as long as its items and the separators between them.
pub proof fn lemma_join_with_len(items: Seq<Seq<char>>, sep: Seq<char>)
    ensures
        items.len() > 0 ==> join_with(items, sep).len() == total_len(items) + (items.len() - 1) * sep.len(),
        items.len() == 0 ==> join_with(items, sep).len() == 0,
    decreases items.len(),
{
    if items.len() > 1 {
        lemma_join_with_len(items.drop_last(), sep);
        assert(total_len(items) == total_len(items.drop_last()) + items.last().len());
        assert((items.len() - 1) * sep.len() == (items.len() - 2) * sep.len() + sep.len()) by (nonlinear_arith);
    } else if items.len() == 1 {
        assert(items.drop_last().len() == 0);
        assert(total_len(items.drop_last()) == 0);
        assert(items.last() == items[0]);
        assert(total_len(items) == items[0].len());
    }
}

/// The summed length of some texts.
pub open spec fn total_len(items: Seq<Seq<char>>) -> int
    decreases items.len(),
{
    if items.len() == 0 {
        0
    } else {
        total_len(items.drop_last()) + items.last().len()
    }
}

proof fn lemma_join_with_no_newline(items: Seq<Seq<char>>, sep: Seq<char>)
    requires
        !sep.contains('\n'),
        forall|i: int| 0 <= i < items.len() ==> !(#[trigger] items[i]).contains('\n'),
    ensures
        !join_with(items, sep).contains('\n'),
    decreases items.len(),
{
    if items.len() > 1 {
        assert forall|i: int| 0 <= i < items.drop_last().len() implies !(
        #[trigger] items.drop_last()[i]).contains('\n') by {
            assert(items.drop_last()[i] == items[i]);
        }
        lemma_join_with_no_newline(items.drop_last(), sep);
        let a = join_with(items.drop_last(), sep);
        let b = items.last();
        assert(!b.contains('\n')) by {
            assert(b == items[items.len() - 1]);
        }
        let whole = a + sep + b;
        assert forall|q: int| 0 <= q < whole.len() implies whole[q] != '\n' by {
            if q < a.len() {
                assert(whole[q] == a[q]);
            } else if q < a.len() + sep.len() {
                assert(whole[q] == sep[q - a.len()]);
            } else {
                assert(whole[q] == b[q - a.len() - sep.len()]);
            }
        }
    } else if items.len() == 1 {
        assert(!items[0].contains('\n'));
    }
}


/// Scanning over the quoted names and their separators leaves the scanner
/// where it was.
proof fn lemma_scan_join(s: Seq<char>, i: int, items: Seq<Seq<char>>, depth: int)
    requires
        0 <= i,
        forall|k: int| 0 <= k < items.len() ==> is_closed_string(#[trigger] items[k]),
        i + join_with(items, ", "@).len() < s.len(),
        s.subrange(i, i + join_with(items, ", "@).len()) == join_with(items, ", "@),
        s[i + join_with(items, ", "@).len()] != '"',
    ensures
        array_close(s, i, Lex::Code, depth) == array_close(
            s,
            i + join_with(items, ", "@).len(),
            Lex::Code,
            depth,
        ),
    decreases items.len(),
{
    reveal_strlit(", ");
    let j = join_with(items, ", "@);
    if items.len() == 1 {
        assert(j == items[0]);
        lemma_scan_string(s, i, items[0], depth);
    } else if items.len() > 1 {
        let front = items.drop_last();
        let jf = join_with(front, ", "@);
        let last = items.last();
        assert(j == jf + ", "@ + last);
        assert forall|k: int| 0 <= k < front.len() implies is_closed_string(#[trigger] front[k]) by {
            assert(front[k] == items[k]);
        }
        assert(is_closed_string(last)) by {
            assert(last == items[items.len() - 1]);
        }
        assert(s.subrange(i, i + jf.len()) =~= jf) by {
            assert forall|q: int| 0 <= q < jf.len() implies s.subrange(i, i + jf.len())[q] == jf[q] by {
                assert(s.subrange(i, i + j.len())[q] == j[q]);
            }
        }
        assert(s[i + jf.len()] == ',') by {
            assert(s.subrange(i, i + j.len())[jf.len() as int] == j[jf.len() as int]);
        }
        assert(s[i + jf.len() + 1] == ' ') by {
            assert(s.subrange(i, i + j.len())[jf.len() as int + 1] == j[jf.len() as int + 1]);
        }
        lemma_scan_join(s, i, front, depth);
        let k = i + jf.len() + 2;
        assert(s.subrange(k, k + last.len()) =~= last) by {
            assert forall|q: int| 0 <= q < last.len() implies s.subrange(k, k + last.len())[q]
                == last[q] by {
                assert(s.subrange(i, i + j.len())[jf.len() + 2 + q] == j[jf.len() + 2 + q]);
            }
        }
        assert(k + last.len() == i + j.len());
        lemma_scan_string(s, k, last, depth);
        assert(array_close(s, i + jf.len(), Lex::Code, depth) == array_close(
            s,
            i + jf.len() + 1,
            Lex::Code,
            depth,
        ));
        assert(array_close(s, i + jf.len() + 1, Lex::Code, depth) == array_close(
            s,
            k,
            Lex::Code,
            depth,
        ));
    }
}

/// A written assignment line, wherever it stands in a text, is read back as
/// an assignment whose array closes at the end of that line.
proof fn lemma_assignment_line_read(s: Seq<char>, p: int, quoted: Seq<Seq<char>>)
    requires
        0 <= p,
        p + assignment_line(quoted).len() <= s.len(),
        s.subrange(p, p + assignment_line(quoted).len()) == assignment_line(quoted),
        forall|k: int| 0 <= k < quoted.len() ==> is_closed_string(#[trigger] quoted[k]),
    ensures
        p < s.len(),
        is_assignment(s.subrange(p, line_end(s, p))),
        assignment_end(s, p) == p + assignment_line(quoted).len(),
{
    reveal_strlit("languages = [");
    reveal_strlit("]");
    reveal_strlit("languages");
    reveal_strlit(", ");
    let r = assignment_line(quoted);
    let head = "languages = ["@;
    let mid = join_with(quoted, ", "@);
    assert(r == head + mid + "]"@);
    assert(head.len() == 13);
    assert(r.len() == 14 + mid.len());
    assert forall|k: int| 0 <= k < quoted.len() implies !(#[trigger] quoted[k]).contains('\n') by {
        assert(is_closed_string(quoted[k]));
    }
    lemma_join_with_no_newline(quoted, ", "@);
    assert forall|q: int| 0 <= q < r.len() implies s[p + q] == r[q] && r[q] != '\n' by {
        assert(s.subrange(p, p + r.len())[q] == r[q]);
        if q < 13 {
            assert(r[q] == head[q]);
        } else if q < 13 + mid.len() {
            assert(r[q] == mid[q - 13]);
        } else {
            assert(r[q] == "]"@[q - 13 - mid.len()]);
        }
    }
    lemma_line_end(s, p);
    let e = line_end(s, p);
    if e < p + r.len() {
        assert(s[e] == r[e - p]);
    }
    assert(e >= p + r.len());
    let line = s.subrange(p, e);
    assert forall|q: int| 0 <= q < r.len() implies line[q] == r[q] by {
        assert(s[p + q] == r[q]);
    }
    assert(line[0] == 'l');
    assert(trim_start(line) == line);
    assert(line.take(9) =~= "languages"@);
    let after = line.skip(9);
    assert(after[0] == ' ');
    assert(after.drop_first() =~= line.skip(10));
    assert(line.skip(10)[0] == '=');
    assert(trim_start(line.skip(10)) == line.skip(10));
    assert(trim_start(after) == trim_start(line.skip(10)));
    assert(is_assignment(line));
    assert forall|q: int| 0 <= q < 10 implies line[q] != '=' by {
        assert(line[q] == head[q]);
    }
    lemma_index_of_char_at(line, '=', 10);
    assert(value_position(s, p) == p + 11);
    let rest = s.skip(p + 11);
    assert(s[p + 11] == r[11] && r[11] == head[11]);
    assert(s[p + 12] == r[12] && r[12] == head[12]);
    assert(rest[0] == ' ');
    assert(rest.drop_first() =~= s.skip(p + 12));
    assert(s.skip(p + 12)[0] == '[');
    assert(trim_start(s.skip(p + 12)) == s.skip(p + 12));
    assert(trim_start(rest) == s.skip(p + 12));
    assert(after_space(s, p + 11) == p + 12);
    assert(s[p + 12] == '[');
    let i = p + 13;
    assert(s.subrange(i, i + mid.len()) =~= mid) by {
        assert forall|q: int| 0 <= q < mid.len() implies s.subrange(i, i + mid.len())[q] == mid[q] by {
            assert(s[p + 13 + q] == r[13 + q]);
        }
    }
    assert(s[i + mid.len()] == ']') by {
        assert(s[p + 13 + mid.len()] == r[13 + mid.len() as int]);
    }
    lemma_scan_join(s, i, quoted, 1);
    assert(array_close(s, p + 12, Lex::Code, 0) == array_close(s, i, Lex::Code, 1));
    assert(array_close(s, i + mid.len(), Lex::Code, 1) == i + mid.len());
}

/// The first assignment found from a line start is itself at a line start,
/// and it assigns `languages`.
proof fn lemma_first_assignment_at_line(t: Seq<char>, x: int)
    requires
        0 <= x,
        x == 0 || (x <= t.len() && t[x - 1] == '\n'),
    ensures
        first_assignment_from(t, x) == -1 || {
            let r = first_assignment_from(t, x);
            &&& x <= r < t.len()
            &&& r == 0 || t[r - 1] == '\n'
        },
    decreases t.len() - x,
{
    if x < t.len() {
        lemma_line_end(t, x);
        let e = line_end(t, x);
        if !is_assignment(t.subrange(x, e)) && e < t.len() {
            lemma_first_assignment_at_line(t, e + 1);
        }
    }
}

/// Two texts that agree up to the line start `m` find the same first
/// assignment from `x` as from `m`, when the first text has none before `m`.
proof fn lemma_first_from_prefix(t: Seq<char>, u: Seq<char>, x: int, m: int)
    requires
        0 <= x <= m <= t.len(),
        m <= u.len(),
        t.take(m) == u.take(m),
        m == 0 || t[m - 1] == '\n',
        first_assignment_from(t, x) == -1 || first_assignment_from(t, x) >= m,
    ensures
        first_assignment_from(u, x) == first_assignment_from(u, m),
    decreases m - x,
{
    if x < m {
        lemma_line_end(t, x);
        let e = line_end(t, x);
        if e >= m {
            assert(t[m - 1] != '\n');
        }
        assert(e < m);
        assert(t[e] == '\n');
        assert forall|q: int| 0 <= q < m implies t[q] == u[q] by {
            assert(t.take(m)[q] == t[q]);
            assert(u.take(m)[q] == u[q]);
            assert(t.take(m)[q] == u.take(m)[q]);
        }
        assert(u.skip(x)[e - x] == '\n');
        assert forall|q: int| 0 <= q < e - x implies u.skip(x)[q] != '\n' by {
            assert(u.skip(x)[q] == t[x + q]);
        }
        lemma_index_of_char_at(u.skip(x), '\n', e - x);
        assert(line_end(u, x) == e);
        assert(t.subrange(x, e) =~= u.subrange(x, e));
        lemma_first_from_prefix(t, u, e + 1, m);
    }
}

/// Ending the last line of a text does not change which line is found.
proof fn lemma_first_push_newline(t: Seq<char>, x: int)
    requires
        t.len() > 0,
        t.last() != '\n',
        0 <= x,
    ensures
        first_assignment_from(t.push('\n'), x) == first_assignment_from(t, x),
    decreases t.len() + 1 - x,
{
    let u = t.push('\n');
    if x == t.len() {
        assert(u.skip(x)[0] == '\n');
        lemma_index_of_char_at(u.skip(x), '\n', 0);
        assert(u.subrange(x, x) =~= Seq::<char>::empty());
        assert(trim_start(Seq::<char>::empty()) =~= Seq::<char>::empty());
        assert(!is_assignment(u.subrange(x, x)));
        assert(line_end(u, x) == x);
        assert(first_assignment_from(u, x) == first_assignment_from(u, x + 1));
        assert(first_assignment_from(u, x + 1) == -1);
    } else if x < t.len() {
        lemma_line_end(t, x);
        let e = line_end(t, x);
        assert forall|q: int| 0 <= q < e - x implies u.skip(x)[q] != '\n' by {
            assert(u.skip(x)[q] == t[x + q]);
        }
        if e < t.len() {
            assert(u.skip(x)[e - x] == t[e]);
        } else {
            assert(u.skip(x)[e - x] == '\n');
        }
        lemma_index_of_char_at(u.skip(x), '\n', e - x);
        assert(line_end(u, x) == e);
        assert(t.subrange(x, e) =~= u.subrange(x, e));
        if e < t.len() {
            lemma_first_push_newline(t, e + 1);
        } else if !is_assignment(t.subrange(x, e)) {
            assert(first_assignment_from(t, x) == -1);
            assert(first_assignment_from(u, x) == first_assignment_from(u, e + 1));
            assert(first_assignment_from(u, e + 1) == -1);
        }
    }
}

/// Where the new assignment line stands in the rewritten text.
pub open spec fn written_position(text: Seq<char>) -> int {
    kept_before(text).len() as int
}

/// Reading the rewritten text back finds the written line first, and its
/// array closes where the line ends: the document now assigns the new list.
///
/// This holds for names written as complete basic strings on one line.
pub proof fn lemma_written_line_is_read_back(text: Seq<char>, quoted: Seq<Seq<char>>)
    requires
        forall|k: int| 0 <= k < quoted.len() ==> is_closed_string(#[trigger] quoted[k]),
    ensures
        ({
            let out = with_assignment(text, assignment_line(quoted));
            let p = written_position(text);
            &&& first_assignment_from(out, 0) == p
            &&& assignment_end(out, p) == p + assignment_line(quoted).len()
            &&& out.take(p) == kept_before(text)
            &&& out.skip(p + assignment_line(quoted).len()) == kept_after(text)
        }),
{
    let r = assignment_line(quoted);
    let out = with_assignment(text, r);
    let before = kept_before(text);
    let p = before.len() as int;
    assert(out.take(p) =~= before);
    assert(out.skip(p + r.len()) =~= kept_after(text));
    assert(out.subrange(p, p + r.len()) =~= r);
    lemma_assignment_line_read(out, p, quoted);
    lemma_first_assignment_at_line(text, 0);
    let a = first_assignment_from(text, 0);
    if a >= 0 {
        assert(text.take(a) =~= out.take(a));
        lemma_first_from_prefix(text, out, 0, a);
    } else {
        let body = terminated(text);
        if text.len() > 0 && text.last() != '\n' {
            lemma_first_push_newline(text, 0);
        }
        assert(first_assignment_from(body, 0) == -1);
        let m = body.len() as int;
        assert(body.take(m) =~= out.take(m)) by {
            assert forall|q: int| 0 <= q < m implies out[q] == body[q] by {
                assert(out[q] == before[q]);
            }
        }
        assert(m == 0 || body[m - 1] == '\n');
        assert(body =~= body.take(m));
        lemma_first_from_prefix(body, out, 0, m);
        if p > m {
            assert(out[m] == '\n');
            assert(out.skip(m)[0] == '\n');
            lemma_index_of_char_at(out.skip(m), '\n', 0);
            assert(out.subrange(m, m) =~= Seq::<char>::empty());
            assert(trim_start(Seq::<char>::empty()) =~= Seq::<char>::empty());
            assert(!is_assignment(out.subrange(m, m)));
            assert(first_assignment_from(out, m) == first_assignment_from(out, m + 1));
        }
    }
}

/// Writing a language list and then another gives the same document as
/// writing the second one alone: the second write replaces exactly what the
/// first one wrote, and nothing else moves.
///
/// This holds for first names written as complete basic strings on one line.
pub proof fn lemma_rewrite_overrides(text: Seq<char>, first: Seq<Seq<char>>, second: Seq<Seq<char>>)
    requires
        forall|k: int| 0 <= k < first.len() ==> is_closed_string(#[trigger] first[k]),
    ensures
        with_assignment(with_assignment(text, assignment_line(first)), assignment_line(second))
            == with_assignment(text, assignment_line(second)),
{
    lemma_written_line_is_read_back(text, first);
    let out = with_assignment(text, assignment_line(first));
    let p = written_position(text);
    assert(kept_before(out) == kept_before(text));
    assert(kept_after(out) == kept_after(text));
}

/// Writing the same language list twice changes nothing the second time.
///
/// This holds for names written as complete basic strings on one line.
pub proof fn lemma_rewrite_idempotent(text: Seq<char>, quoted: Seq<Seq<char>>)
    requires
        forall|k: int| 0 <= k < quoted.len() ==> is_closed_string(#[trigger] quoted[k]),
    ensures
        with_assignment(with_assignment(text, assignment_line(quoted)), assignment_line(quoted))
            == with_assignment(text, assignment_line(quoted)),
{
    lemma_rewrite_overrides(text, quoted, quoted);
}

} // verus!
