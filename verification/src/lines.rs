//! Lines and leading white space of a text, over its `Seq<char>` view.
//!
//! A line runs from its start to the next `\n` (or the end of the text).
//! `trim_start` drops leading characters with the Unicode `White_Space`
//! property, as `str::trim_start` documents.
use vstd::prelude::*;

verus! {

/// The Unicode `White_Space` property.
pub open spec fn is_white_space(c: char) -> bool {
    let n = c as u32;
    ||| 0x9 <= n <= 0xd
    ||| n == 0x20
    ||| n == 0x85
    ||| n == 0xa0
    ||| n == 0x1680
    ||| 0x2000 <= n <= 0x200a
    ||| n == 0x2028
    ||| n == 0x2029
    ||| n == 0x202f
    ||| n == 0x205f
    ||| n == 0x3000
}

/// `s` without its leading white space.
pub open spec fn trim_start(s: Seq<char>) -> Seq<char>
    decreases s.len(),
{
    if s.len() > 0 && is_white_space(s[0]) {
        trim_start(s.drop_first())
    } else {
        s
    }
}

/// The position of the first `c` in `s`, or -1 where there is none.
pub open spec fn index_of_char(s: Seq<char>, c: char) -> int
    decreases s.len(),
{
    if s.len() == 0 {
        -1
    } else if s[0] == c {
        0
    } else {
        let i = index_of_char(s.drop_first(), c);
        if i < 0 {
            -1
        } else {
            i + 1
        }
    }
}

pub proof fn lemma_index_of_char_bound(s: Seq<char>, c: char)
    ensures
        -1 <= index_of_char(s, c) < s.len(),
        index_of_char(s, c) >= 0 ==> s[index_of_char(s, c)] == c,
        index_of_char(s, c) < 0 ==> !s.contains(c),
        forall|q: int| 0 <= q < index_of_char(s, c) ==> s[q] != c,
    decreases s.len(),
{
    if s.len() > 0 && s[0] != c {
        lemma_index_of_char_bound(s.drop_first(), c);
        let i = index_of_char(s.drop_first(), c);
        if i < 0 {
            assert forall|q: int| 0 <= q < s.len() implies s[q] != c by {
                if q > 0 {
                    assert(s[q] == s.drop_first()[q - 1]);
                }
            }
        } else {
            assert forall|q: int| 0 <= q < i + 1 implies s[q] != c by {
                if q > 0 {
                    assert(s[q] == s.drop_first()[q - 1]);
                }
            }
        }
    }
}

/// The first `c` is where the text says it is.
pub proof fn lemma_index_of_char_at(s: Seq<char>, c: char, p: int)
    requires
        0 <= p < s.len(),
        s[p] == c,
        forall|q: int| 0 <= q < p ==> s[q] != c,
    ensures
        index_of_char(s, c) == p,
    decreases s.len(),
{
    if p > 0 {
        lemma_index_of_char_at(s.drop_first(), c, p - 1);
    }
}

pub proof fn lemma_index_of_char_none(s: Seq<char>, c: char)
    requires
        forall|q: int| 0 <= q < s.len() ==> s[q] != c,
    ensures
        index_of_char(s, c) == -1,
    decreases s.len(),
{
    if s.len() > 0 {
        lemma_index_of_char_none(s.drop_first(), c);
    }
}

/// Whether `c` has the Unicode `White_Space` property.
pub fn is_white_space_char(c: char) -> (r: bool)
    ensures
        r == is_white_space(c),
{
    let n = c as u32;
    (0x9 <= n && n <= 0xd) || n == 0x20 || n == 0x85 || n == 0xa0 || n == 0x1680 || (0x2000 <= n
        && n <= 0x200a) || n == 0x2028 || n == 0x2029 || n == 0x202f || n == 0x205f || n == 0x3000
}

/// The position, from `from` on, where the white space that starts there ends.
pub fn skip_white_space(v: &Vec<char>, from: usize) -> (i: usize)
    requires
        from <= v.len(),
    ensures
        from <= i <= v.len(),
        trim_start(v@.skip(from as int)) == v@.skip(i as int),
{
    let mut i = from;
    while i < v.len() && is_white_space_char(v[i])
        invariant
            from <= i <= v.len(),
            trim_start(v@.skip(from as int)) == trim_start(v@.skip(i as int)),
        decreases v.len() - i,
    {
        assert(v@.skip(i as int).drop_first() =~= v@.skip(i as int + 1));
        i += 1;
    }
    i
}

/// Characters `from..to` of `v`.
pub fn copy_range(v: &Vec<char>, from: usize, to: usize) -> (r: Vec<char>)
    requires
        from <= to <= v.len(),
    ensures
        r@ == v@.subrange(from as int, to as int),
{
    let mut r: Vec<char> = Vec::new();
    let mut k = from;
    while k < to
        invariant
            from <= k <= to <= v.len(),
            r@ == v@.subrange(from as int, k as int),
        decreases to - k,
    {
        r.push(v[k]);
        k += 1;
        assert(r@ =~= v@.subrange(from as int, k as int));
    }
    r
}

/// Where the line that starts at `x` ends: its `\n`, or the end of the text.
pub open spec fn line_end(text: Seq<char>, x: int) -> int {
    let i = index_of_char(text.skip(x), '\n');
    if i < 0 {
        text.len() as int
    } else {
        x + i
    }
}

pub proof fn lemma_line_end(text: Seq<char>, x: int)
    requires
        0 <= x <= text.len(),
    ensures
        x <= line_end(text, x) <= text.len(),
        line_end(text, x) < text.len() ==> text[line_end(text, x)] == '\n',
        forall|q: int| x <= q < line_end(text, x) ==> text[q] != '\n',
{
    let rest = text.skip(x);
    lemma_index_of_char_bound(rest, '\n');
    assert forall|q: int| x <= q < line_end(text, x) implies text[q] != '\n' by {
        assert(text[q] == rest[q - x]);
        if index_of_char(rest, '\n') < 0 {
            assert(rest.contains(rest[q - x]) ==> rest[q - x] != '\n');
        }
    }
    if index_of_char(rest, '\n') >= 0 {
        assert(text[line_end(text, x)] == rest[index_of_char(rest, '\n')]);
    }
}

/// Where the line that starts at `x` ends (see `line_end`).
pub fn line_end_of(text: &Vec<char>, x: usize) -> (e: usize)
    requires
        x <= text.len(),
    ensures
        e == line_end(text@, x as int),
        x <= e <= text.len(),
{
    let mut e = x;
    while e < text.len() && text[e] != '\n'
        invariant
            x <= e <= text.len(),
            forall|q: int| x <= q < e ==> text@[q] != '\n',
        decreases text.len() - e,
    {
        e += 1;
    }
    let ghost rest = text@.skip(x as int);
    if e < text.len() {
        proof {
            lemma_index_of_char_at(rest, '\n', e - x);
        }
    } else {
        proof {
            lemma_index_of_char_none(rest, '\n');
        }
    }
    e
}

/// Appends characters `from..to` of `v` to `out`.
pub fn push_range(out: &mut Vec<char>, v: &Vec<char>, from: usize, to: usize)
    requires
        from <= to <= v.len(),
    ensures
        final(out)@ == old(out)@ + v@.subrange(from as int, to as int),
{
    let ghost start = out@;
    let mut k = from;
    while k < to
        invariant
            from <= k <= to <= v.len(),
            out@ == start + v@.subrange(from as int, k as int),
        decreases to - k,
    {
        out.push(v[k]);
        k += 1;
        assert(out@ =~= start + v@.subrange(from as int, k as int));
    }
}

} // verus!
