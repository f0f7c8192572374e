//! Character-level helpers shared by the parsers: Unicode whitespace
//! trimming, decimal parsing, line splitting and field splitting.
//!
//! Everything here works on `Seq<char>` views; `chars_of` turns a `&str`
//! into a vector of its characters and `string_of` turns one back.
use vstd::prelude::*;

verus! {

/// The Unicode `White_Space` property, which is what `char::is_whitespace`
/// (and therefore `str::trim`) tests.
pub open spec fn is_whitespace(c: char) -> bool {
    let n = c as u32;
    ||| 9 <= n <= 13
    ||| n == 32
    ||| n == 0x85
    ||| n == 0xA0
    ||| n == 0x1680
    ||| 0x2000 <= n <= 0x200A
    ||| n == 0x2028
    ||| n == 0x2029
    ||| n == 0x202F
    ||| n == 0x205F
    ||| n == 0x3000
}

pub open spec fn is_ascii_digit(c: char) -> bool {
    '0' <= c <= '9'
}

pub open spec fn is_ascii_alphanumeric(c: char) -> bool {
    ||| '0' <= c <= '9'
    ||| 'a' <= c <= 'z'
    ||| 'A' <= c <= 'Z'
}

pub fn char_is_whitespace(c: char) -> (b: bool)
    ensures
        b == is_whitespace(c),
{
    let n = c as u32;
    (9 <= n && n <= 13) || n == 32 || n == 0x85 || n == 0xA0 || n == 0x1680 || (0x2000 <= n && n
        <= 0x200A) || n == 0x2028 || n == 0x2029 || n == 0x202F || n == 0x205F || n == 0x3000
}

pub fn char_is_ascii_alphanumeric(c: char) -> (b: bool)
    ensures
        b == is_ascii_alphanumeric(c),
{
    ('0' <= c && c <= '9') || ('a' <= c && c <= 'z') || ('A' <= c && c <= 'Z')
}

/// The characters of `s`, in order.
pub fn chars_of(s: &str) -> (v: Vec<char>)
    ensures
        v@ == s@,
{
    let mut v: Vec<char> = Vec::new();
    proof {
        broadcast use vstd::string::axiom_spec_iter;
    }
    for c in it: s.chars()
        invariant
            v@ == it.seq().take(it.index()),
    {
        v.push(c);
    }
    assert(v@ =~= s@);
    v
}

/// Appends one character to a `String` (`String::push`).
#[verifier::external_body]
fn push_char(s: &mut String, c: char)
    ensures
        final(s)@ == old(s)@.push(c),
{
    s.push(c);
}

/// A `String` holding exactly the characters of `v`.
pub fn string_of(v: &[char]) -> (s: String)
    ensures
        s@ == v@,
{
    let mut s = String::new();
    let mut i: usize = 0;
    while i < v.len()
        invariant
            i <= v@.len(),
            s@ == v@.subrange(0, i as int),
        decreases v@.len() - i,
    {
        push_char(&mut s, v[i]);
        assert(v@.subrange(0, i + 1) =~= v@.subrange(0, i as int).push(v@[i as int]));
        i += 1;
    }
    assert(v@.subrange(0, v@.len() as int) =~= v@);
    s
}

// ---------------------------------------------------------------------------
// Trimming
// ---------------------------------------------------------------------------
/// `s` without its leading whitespace.
pub open spec fn trim_start(s: Seq<char>) -> Seq<char>
    decreases s.len(),
{
    if s.len() > 0 && is_whitespace(s[0]) {
        trim_start(s.drop_first())
    } else {
        s
    }
}

/// `s` without its trailing whitespace.
pub open spec fn trim_end(s: Seq<char>) -> Seq<char>
    decreases s.len(),
{
    if s.len() > 0 && is_whitespace(s.last()) {
        trim_end(s.drop_last())
    } else {
        s
    }
}

/// What `str::trim` returns: leading and trailing whitespace removed.
pub open spec fn trim(s: Seq<char>) -> Seq<char> {
    trim_end(trim_start(s))
}

proof fn lemma_trim_start_from(s: Seq<char>, i: int)
    requires
        0 <= i <= s.len(),
        forall|k: int| 0 <= k < i ==> is_whitespace(#[trigger] s[k]),
        i == s.len() || !is_whitespace(s[i]),
    ensures
        trim_start(s) == s.subrange(i, s.len() as int),
    decreases i,
{
    if i == 0 {
        assert(s.subrange(0, s.len() as int) =~= s);
    } else {
        let t = s.drop_first();
        assert forall|k: int| 0 <= k < i - 1 implies is_whitespace(#[trigger] t[k]) by {
            assert(t[k] == s[k + 1]);
        }
        lemma_trim_start_from(t, i - 1);
        assert(t.subrange(i - 1, t.len() as int) =~= s.subrange(i, s.len() as int));
    }
}

proof fn lemma_trim_end_to(s: Seq<char>, j: int)
    requires
        0 <= j <= s.len(),
        forall|k: int| j <= k < s.len() ==> is_whitespace(#[trigger] s[k]),
        j == 0 || !is_whitespace(s[j - 1]),
    ensures
        trim_end(s) == s.subrange(0, j),
    decreases s.len() - j,
{
    if j == s.len() {
        assert(s.subrange(0, j) =~= s);
    } else {
        let t = s.drop_last();
        assert forall|k: int| j <= k < t.len() implies is_whitespace(#[trigger] t[k]) by {
            assert(t[k] == s[k]);
        }
        lemma_trim_end_to(t, j);
        assert(t.subrange(0, j) =~= s.subrange(0, j));
    }
}

/// The index `a` with `trim_start(s) == s[a..]`.
pub fn trim_start_index(s: &[char]) -> (a: usize)
    ensures
        a <= s@.len(),
        trim_start(s@) == s@.subrange(a as int, s@.len() as int),
{
    let n = s.len();
    let mut a: usize = 0;
    while a < n && char_is_whitespace(s[a])
        invariant
            a <= n == s@.len(),
            forall|k: int| 0 <= k < a ==> is_whitespace(#[trigger] s@[k]),
        decreases n - a,
    {
        a += 1;
    }
    proof {
        lemma_trim_start_from(s@, a as int);
    }
    a
}

/// The bounds `(a, b)` with `trim(s) == s[a..b]`.
pub fn trim_bounds(s: &[char]) -> (r: (usize, usize))
    ensures
        r.0 <= r.1 <= s@.len(),
        trim(s@) == s@.subrange(r.0 as int, r.1 as int),
{
    let n = s.len();
    let mut a: usize = 0;
    while a < n && char_is_whitespace(s[a])
        invariant
            a <= n == s@.len(),
            forall|k: int| 0 <= k < a ==> is_whitespace(#[trigger] s@[k]),
        decreases n - a,
    {
        a += 1;
    }
    proof {
        lemma_trim_start_from(s@, a as int);
    }
    let mut b: usize = n;
    while b > a && char_is_whitespace(s[b - 1])
        invariant
            a <= b <= n == s@.len(),
            forall|k: int| b <= k < n ==> is_whitespace(#[trigger] s@[k]),
        decreases b,
    {
        b -= 1;
    }
    proof {
        let t = s@.subrange(a as int, n as int);
        assert forall|k: int| b - a <= k < t.len() implies is_whitespace(#[trigger] t[k]) by {
            assert(t[k] == s@[k + a]);
        }
        if b > a {
            assert(t[b - a - 1] == s@[b - 1]);
        }
        lemma_trim_end_to(t, b - a);
        assert(t.subrange(0, b - a) =~= s@.subrange(a as int, b as int));
    }
    (a, b)
}

/// `str::trim`, as a vector of characters.
pub fn trim_chars(s: &[char]) -> (t: Vec<char>)
    ensures
        t@ == trim(s@),
{
    let (a, b) = trim_bounds(s);
    let mut t: Vec<char> = Vec::new();
    let mut i = a;
    while i < b
        invariant
            a <= i <= b <= s@.len(),
            t@ == s@.subrange(a as int, i as int),
        decreases b - i,
    {
        t.push(s[i]);
        assert(s@.subrange(a as int, i + 1) =~= s@.subrange(a as int, i as int).push(s@[i as int]));
        i += 1;
    }
    t
}

// ---------------------------------------------------------------------------
// Decimal numbers
// ---------------------------------------------------------------------------
/// The value of a string of decimal digits.
pub open spec fn digits_value(s: Seq<char>) -> nat
    decreases s.len(),
{
    if s.len() == 0 {
        0
    } else {
        digits_value(s.drop_last()) * 10 + ((s.last() as u32) - ('0' as u32)) as nat
    }
}

pub open spec fn all_digits(s: Seq<char>) -> bool {
    forall|i: int| 0 <= i < s.len() ==> is_ascii_digit(#[trigger] s[i])
}

/// What `str::parse::<u32>` accepts: an optional `+`, then one or more
/// ASCII digits whose value fits in a `u32`.
pub open spec fn parse_u32_spec(s: Seq<char>) -> Option<u32> {
    let d = if s.len() > 0 && s[0] == '+' {
        s.drop_first()
    } else {
        s
    };
    if d.len() > 0 && all_digits(d) && digits_value(d) <= u32::MAX {
        Some(digits_value(d) as u32)
    } else {
        None
    }
}

/// `str::parse::<u32>().ok()`.
pub fn parse_u32(s: &[char]) -> (r: Option<u32>)
    ensures
        r == parse_u32_spec(s@),
{
    let n = s.len();
    let start: usize = if n > 0 && s[0] == '+' {
        1
    } else {
        0
    };
    let ghost d = s@.subrange(start as int, n as int);
    proof {
        if start == 1 {
            assert(d =~= s@.drop_first());
        } else {
            assert(d =~= s@);
        }
    }
    if start == n {
        return None;
    }
    let mut acc: u64 = 0;
    let mut overflow = false;
    let mut i = start;
    while i < n
        invariant
            start <= i <= n == s@.len(),
            d == s@.subrange(start as int, n as int),
            d == (if s@.len() > 0 && s@[0] == '+' {
                s@.drop_first()
            } else {
                s@
            }),
            all_digits(s@.subrange(start as int, i as int)),
            !overflow ==> acc == digits_value(s@.subrange(start as int, i as int)) && acc
                <= u32::MAX,
            overflow ==> digits_value(s@.subrange(start as int, i as int)) > u32::MAX,
        decreases n - i,
    {
        let c = s[i];
        let ghost pre = s@.subrange(start as int, i as int);
        let ghost next = s@.subrange(start as int, i + 1);
        assert(next.drop_last() =~= pre);
        assert(next.last() == c);
        if !('0' <= c && c <= '9') {
            proof {
                assert(d[i - start] == c);
                assert(!is_ascii_digit(d[i - start]));
                assert(!all_digits(d));
            }
            return None;
        }
        let digit = (c as u32 - '0' as u32) as u64;
        if !overflow {
            acc = acc * 10 + digit;
            if acc > 0xffff_ffff {
                overflow = true;
            }
        }
        proof {
            assert forall|k: int| 0 <= k < next.len() implies is_ascii_digit(#[trigger] next[k]) by {
                if k < pre.len() {
                    assert(next[k] == pre[k]);
                }
            }
        }
        i += 1;
    }
    assert(s@.subrange(start as int, n as int) == d);
    if overflow {
        None
    } else {
        Some(acc as u32)
    }
}

// ---------------------------------------------------------------------------
// Lines
// ---------------------------------------------------------------------------
/// Index of the first `c` in `s`, or `s.len()` when there is none.
pub open spec fn find_from(s: Seq<char>, c: char, i: int) -> int
    decreases s.len() - i,
{
    if i >= s.len() {
        s.len() as int
    } else if s[i] == c {
        i
    } else {
        find_from(s, c, i + 1)
    }
}

pub open spec fn strip_cr(s: Seq<char>) -> Seq<char> {
    if s.len() > 0 && s.last() == '\r' {
        s.drop_last()
    } else {
        s
    }
}

/// `s.lines().next()`: nothing for an empty string; otherwise the text before
/// the first `'\n'` (a `'\r'` just before that `'\n'` removed), or all of `s`
/// when it holds no `'\n'`.
pub open spec fn first_line(s: Seq<char>) -> Option<Seq<char>> {
    if s.len() == 0 {
        None
    } else {
        let k = find_from(s, '\n', 0);
        if k < s.len() {
            Some(strip_cr(s.subrange(0, k)))
        } else {
            Some(s)
        }
    }
}

proof fn lemma_find_from(s: Seq<char>, c: char, i: int, k: int)
    requires
        0 <= i <= k <= s.len(),
        forall|j: int| i <= j < k ==> s[j] != c,
        k == s.len() || s[k] == c,
    ensures
        find_from(s, c, i) == k,
    decreases k - i,
{
    if i < k {
        lemma_find_from(s, c, i + 1, k);
    }
}

/// The index of the first `c` in `s[i..]`, or `s.len()`.
pub fn find_char(s: &[char], c: char, i: usize) -> (k: usize)
    requires
        i <= s@.len(),
    ensures
        k == find_from(s@, c, i as int),
        i <= k <= s@.len(),
{
    let mut k = i;
    while k < s.len() && s[k] != c
        invariant
            i <= k <= s@.len(),
            forall|j: int| i <= j < k ==> s@[j] != c,
        decreases s@.len() - k,
    {
        k += 1;
    }
    proof {
        lemma_find_from(s@, c, i as int, k as int);
    }
    k
}

/// A copy of `s[a..b]`.
pub fn slice_chars(s: &[char], a: usize, b: usize) -> (t: Vec<char>)
    requires
        a <= b <= s@.len(),
    ensures
        t@ == s@.subrange(a as int, b as int),
{
    let mut t: Vec<char> = Vec::new();
    let mut i = a;
    while i < b
        invariant
            a <= i <= b <= s@.len(),
            t@ == s@.subrange(a as int, i as int),
        decreases b - i,
    {
        t.push(s[i]);
        assert(s@.subrange(a as int, i + 1) =~= s@.subrange(a as int, i as int).push(s@[i as int]));
        i += 1;
    }
    t
}

/// `s.lines().next()`.
pub fn first_line_of(s: &[char]) -> (r: Option<Vec<char>>)
    ensures
        match r {
            Some(l) => first_line(s@) == Some(l@),
            None => first_line(s@) is None,
        },
{
    if s.len() == 0 {
        return None;
    }
    let k = find_char(s, '\n', 0);
    if k < s.len() {
        let mut end = k;
        if k > 0 && s[k - 1] == '\r' {
            end = k - 1;
        }
        let line = slice_chars(s, 0, end);
        proof {
            let p = s@.subrange(0, k as int);
            if k > 0 && s@[k - 1] == '\r' {
                assert(p.drop_last() =~= line@);
            } else {
                assert(p =~= line@);
            }
        }
        Some(line)
    } else {
        let line = slice_chars(s, 0, s.len());
        assert(line@ =~= s@);
        Some(line)
    }
}

// ---------------------------------------------------------------------------
// Fields
// ---------------------------------------------------------------------------
/// `s.split(c)`: the pieces between occurrences of `c`. There is always at
/// least one piece.
pub open spec fn split_on(s: Seq<char>, c: char) -> Seq<Seq<char>>
    decreases s.len(),
{
    if s.len() == 0 {
        seq![Seq::<char>::empty()]
    } else {
        let init = split_on(s.drop_last(), c);
        if s.last() == c {
            init.push(Seq::<char>::empty())
        } else {
            init.update(init.len() - 1, init.last().push(s.last()))
        }
    }
}

pub proof fn lemma_split_on_nonempty(s: Seq<char>, c: char)
    ensures
        split_on(s, c).len() >= 1,
    decreases s.len(),
{
    if s.len() > 0 {
        lemma_split_on_nonempty(s.drop_last(), c);
    }
}

/// `s.split(c).collect::<Vec<_>>()`, each piece as a vector of characters.
pub fn split_chars(s: &[char], c: char) -> (parts: Vec<Vec<char>>)
    ensures
        parts.deep_view() == split_on(s@, c),
{
    let mut parts: Vec<Vec<char>> = Vec::new();
    let mut cur: Vec<char> = Vec::new();
    let mut i: usize = 0;
    while i < s.len()
        invariant
            i <= s@.len(),
            parts.deep_view().push(cur@) == split_on(s@.subrange(0, i as int), c),
        decreases s@.len() - i,
    {
        let ghost pre = s@.subrange(0, i as int);
        let ghost next = s@.subrange(0, i + 1);
        assert(next.drop_last() =~= pre);
        let ghost before = parts.deep_view().push(cur@);
        proof {
            lemma_split_on_nonempty(pre, c);
        }
        if s[i] == c {
            let done = cur;
            assert(done.deep_view() =~= done@);
            let ghost old_parts = parts.deep_view();
            parts.push(done);
            assert(parts.deep_view() =~= old_parts.push(done@));
            cur = Vec::new();
            assert(parts.deep_view().push(cur@) =~= before.push(Seq::<char>::empty()));
        } else {
            cur.push(s[i]);
            assert(parts.deep_view().push(cur@) =~= before.update(
                before.len() - 1,
                before.last().push(s@[i as int]),
            ));
        }
        i += 1;
    }
    assert(s@.subrange(0, s@.len() as int) =~= s@);
    let ghost old_parts = parts.deep_view();
    let last = cur;
    assert(last.deep_view() =~= last@);
    parts.push(last);
    assert(parts.deep_view() =~= old_parts.push(last@));
    parts
}


// ---------------------------------------------------------------------------
// All lines, and joining them
// ---------------------------------------------------------------------------
/// `s.lines()`: the pieces between `'\n'`s, without a final empty piece
/// after a trailing `'\n'`; a `'\r'` just before a `'\n'` is removed.
pub open spec fn str_lines(s: Seq<char>) -> Seq<Seq<char>> {
    if s.len() == 0 {
        Seq::empty()
    } else {
        let p = split_on(s, '\n');
        let body = p.subrange(0, p.len() - 1).map_values(|l: Seq<char>| strip_cr(l));
        if s.last() == '\n' {
            body
        } else {
            body.push(p.last())
        }
    }
}

/// `lines.join("\n")`.
pub open spec fn join_lines(lines: Seq<Seq<char>>) -> Seq<char>
    decreases lines.len(),
{
    if lines.len() == 0 {
        Seq::empty()
    } else if lines.len() == 1 {
        lines[0]
    } else {
        join_lines(lines.drop_last()).push('\n') + lines.last()
    }
}

fn strip_cr_vec(l: Vec<char>) -> (r: Vec<char>)
    ensures
        r@ == strip_cr(l@),
{
    let mut l = l;
    if l.len() > 0 && l[l.len() - 1] == '\r' {
        l.pop();
    }
    l
}

/// Appends the characters of `v` to `out`.
pub fn append_chars(out: &mut Vec<char>, v: &[char])
    ensures
        final(out)@ == old(out)@ + v@,
{
    let mut k: usize = 0;
    while k < v.len()
        invariant
            k <= v@.len(),
            out@ == old(out)@ + v@.subrange(0, k as int),
        decreases v@.len() - k,
    {
        out.push(v[k]);
        assert(out@ =~= old(out)@ + v@.subrange(0, k + 1));
        k += 1;
    }
    assert(v@.subrange(0, v@.len() as int) =~= v@);
}

/// `s.lines()`, each line as a vector of characters.
pub fn lines_of(s: &[char]) -> (r: Vec<Vec<char>>)
    ensures
        r.deep_view() == str_lines(s@),
{
    if s.len() == 0 {
        let r: Vec<Vec<char>> = Vec::new();
        assert(r.deep_view() =~= str_lines(s@));
        return r;
    }
    let parts = split_chars(s, '\n');
    let ghost p = parts.deep_view();
    proof {
        lemma_split_on_nonempty(s@, '\n');
    }
    let n = parts.len();
    let mut r: Vec<Vec<char>> = Vec::new();
    let mut i: usize = 0;
    while i + 1 < n
        invariant
            n == p.len() >= 1,
            n == parts@.len(),
            p == parts.deep_view(),
            i + 1 <= n,
            r.deep_view() == p.subrange(0, i as int).map_values(|l: Seq<char>| strip_cr(l)),
        decreases n - i,
    {
        assert(p[i as int] == parts@[i as int]@);
        let line = slice_chars(parts[i].as_slice(), 0, parts[i].len());
        assert(line@ =~= p[i as int]);
        let stripped = strip_cr_vec(line);
        let ghost before = r.deep_view();
        assert(stripped.deep_view() =~= stripped@);
        r.push(stripped);
        assert(r.deep_view() =~= before.push(stripped@));
        assert(r.deep_view() =~= p.subrange(0, i + 1).map_values(|l: Seq<char>| strip_cr(l)));
        i += 1;
    }
    if s[s.len() - 1] != '\n' {
        assert(p[n - 1] == parts@[n - 1]@);
        let line = slice_chars(parts[n - 1].as_slice(), 0, parts[n - 1].len());
        assert(line@ =~= p.last());
        let ghost before = r.deep_view();
        assert(line.deep_view() =~= line@);
        r.push(line);
        assert(r.deep_view() =~= before.push(p.last()));
    }
    r
}

/// `lines.join("\n")`.
pub fn join_lines_of(lines: &Vec<Vec<char>>) -> (r: Vec<char>)
    ensures
        r@ == join_lines(lines.deep_view()),
{
    let ghost ls = lines.deep_view();
    let mut r: Vec<char> = Vec::new();
    let mut i: usize = 0;
    assert(ls.subrange(0, 0) =~= Seq::<Seq<char>>::empty());
    while i < lines.len()
        invariant
            i <= ls.len(),
            ls.len() == lines@.len(),
            ls == lines.deep_view(),
            r@ == join_lines(ls.subrange(0, i as int)),
        decreases ls.len() - i,
    {
        if i > 0 {
            r.push('\n');
        }
        assert(ls[i as int] == lines@[i as int]@);
        append_chars(&mut r, lines[i].as_slice());
        let ghost next = ls.subrange(0, i + 1);
        assert(next.drop_last() =~= ls.subrange(0, i as int));
        assert(r@ =~= join_lines(next));
        i += 1;
    }
    assert(ls.subrange(0, ls.len() as int) =~= ls);
    r
}

/// No character of `s` is `c`.
pub open spec fn lacks(s: Seq<char>, c: char) -> bool {
    forall|j: int| 0 <= j < s.len() ==> s[j] != c
}

proof fn lemma_split_on_lacks(s: Seq<char>, c: char)
    ensures
        forall|i: int| 0 <= i < split_on(s, c).len() ==> lacks(#[trigger] split_on(s, c)[i], c),
    decreases s.len(),
{
    lemma_split_on_nonempty(s, c);
    if s.len() > 0 {
        lemma_split_on_lacks(s.drop_last(), c);
        lemma_split_on_nonempty(s.drop_last(), c);
        let init = split_on(s.drop_last(), c);
        if s.last() != c {
            let l = init.last().push(s.last());
            assert(lacks(init[init.len() - 1], c));
            assert(lacks(l, c));
            assert forall|i: int| 0 <= i < split_on(s, c).len() implies lacks(
                #[trigger] split_on(s, c)[i],
                c,
            ) by {
                if i < init.len() - 1 {
                    assert(split_on(s, c)[i] == init[i]);
                }
            }
        } else {
            assert forall|i: int| 0 <= i < split_on(s, c).len() implies lacks(
                #[trigger] split_on(s, c)[i],
                c,
            ) by {
                if i < init.len() {
                    assert(split_on(s, c)[i] == init[i]);
                }
            }
        }
    }
}

/// No line read from text contains a newline.
pub proof fn lemma_str_lines_lack_newline(s: Seq<char>)
    ensures
        forall|i: int| 0 <= i < str_lines(s).len() ==> lacks(#[trigger] str_lines(s)[i], '\n'),
{
    if s.len() > 0 {
        lemma_split_on_lacks(s, '\n');
        lemma_split_on_nonempty(s, '\n');
        let p = split_on(s, '\n');
        assert forall|i: int| 0 <= i < str_lines(s).len() implies lacks(
            #[trigger] str_lines(s)[i],
            '\n',
        ) by {
            assert(lacks(p[i], '\n'));
        }
    }
}

proof fn lemma_split_on_single(t: Seq<char>, c: char)
    requires
        lacks(t, c),
    ensures
        split_on(t, c) == seq![t],
    decreases t.len(),
{
    if t.len() == 0 {
        assert(t =~= Seq::<char>::empty());
        assert(split_on(t, c) =~= seq![t]);
    } else {
        assert(t[t.len() - 1] != c);
        assert(lacks(t.drop_last(), c)) by {
            assert forall|j: int| 0 <= j < t.len() - 1 implies t.drop_last()[j] != c by {
                assert(t.drop_last()[j] == t[j]);
            }
        }
        lemma_split_on_single(t.drop_last(), c);
        let init = split_on(t.drop_last(), c);
        assert(init.last() == t.drop_last());
        assert(t.drop_last().push(t.last()) =~= t);
        assert(split_on(t, c) == init.update(0, t));
        assert(split_on(t, c) =~= seq![t]);
    }
}

proof fn lemma_split_on_after(s: Seq<char>, t: Seq<char>, c: char)
    requires
        lacks(t, c),
    ensures
        split_on(s.push(c) + t, c) == split_on(s, c).push(t),
    decreases t.len(),
{
    let u = s.push(c) + t;
    if t.len() == 0 {
        assert(u =~= s.push(c));
        assert(u.drop_last() =~= s);
        assert(t =~= Seq::<char>::empty());
        assert(split_on(u, c) =~= split_on(s, c).push(t));
    } else {
        assert(t[t.len() - 1] != c);
        assert(lacks(t.drop_last(), c)) by {
            assert forall|j: int| 0 <= j < t.len() - 1 implies t.drop_last()[j] != c by {
                assert(t.drop_last()[j] == t[j]);
            }
        }
        lemma_split_on_after(s, t.drop_last(), c);
        assert(u.drop_last() =~= s.push(c) + t.drop_last());
        assert(u.last() == t.last());
        let init = split_on(s, c).push(t.drop_last());
        assert(split_on(u, c) == init.update(init.len() - 1, init.last().push(t.last())));
        assert(t.drop_last().push(t.last()) =~= t);
        assert(split_on(u, c) =~= split_on(s, c).push(t));
    }
}

proof fn lemma_split_on_joined(ls: Seq<Seq<char>>)
    requires
        ls.len() >= 1,
        forall|i: int| 0 <= i < ls.len() ==> lacks(#[trigger] ls[i], '\n'),
    ensures
        split_on(join_lines(ls), '\n') == ls,
    decreases ls.len(),
{
    if ls.len() == 1 {
        lemma_split_on_single(ls[0], '\n');
        assert(seq![ls[0]] =~= ls);
    } else {
        let init = ls.drop_last();
        assert forall|i: int| 0 <= i < init.len() implies lacks(#[trigger] init[i], '\n') by {
            assert(init[i] == ls[i]);
        }
        lemma_split_on_joined(init);
        assert(lacks(ls[ls.len() - 1], '\n'));
        lemma_split_on_after(join_lines(init), ls.last(), '\n');
        assert(init.push(ls.last()) =~= ls);
    }
}

/// Writing lines out, each ended by a newline, and reading the text back
/// gives the same lines, except that a `'\r'` at the end of a line is lost
/// (it reads as part of the line ending).
pub proof fn lemma_lines_of_joined(ls: Seq<Seq<char>>)
    requires
        ls.len() >= 1,
        forall|i: int| 0 <= i < ls.len() ==> lacks(#[trigger] ls[i], '\n'),
    ensures
        str_lines(join_lines(ls).push('\n')) == ls.map_values(|l: Seq<char>| strip_cr(l)),
{
    let s = join_lines(ls).push('\n');
    lemma_split_on_joined(ls);
    lemma_split_on_after(join_lines(ls), Seq::empty(), '\n');
    assert(join_lines(ls).push('\n') + Seq::<char>::empty() =~= s);
    let p = split_on(s, '\n');
    assert(p =~= ls.push(Seq::<char>::empty()));
    assert(p.subrange(0, p.len() - 1) =~= ls);
    assert(str_lines(s) =~= ls.map_values(|l: Seq<char>| strip_cr(l)));
}

// ---------------------------------------------------------------------------
// Decimal numbers as text
// ---------------------------------------------------------------------------
pub open spec fn digit_char(d: nat) -> char {
    (d + 48) as char
}

/// The decimal digits of `n`, without leading zeros (`0` is `"0"`).
pub open spec fn decimal(n: nat) -> Seq<char>
    decreases n,
{
    if n < 10 {
        seq![digit_char(n)]
    } else {
        decimal(n / 10).push(digit_char(n % 10))
    }
}

/// How an `i32` is displayed: a `-` for negative values, then the digits
/// of its magnitude.
pub open spec fn i32_text(v: i32) -> Seq<char> {
    if v < 0 {
        seq!['-'] + decimal((-v) as nat)
    } else {
        decimal(v as nat)
    }
}

fn push_decimal(out: &mut Vec<char>, n: u64)
    ensures
        final(out)@ == old(out)@ + decimal(n as nat),
    decreases n,
{
    if n >= 10 {
        push_decimal(out, n / 10);
    }
    let d = (n % 10) as u8;
    out.push((d + 48) as char);
    proof {
        assert(digit_char((n % 10) as nat) == (d + 48) as char);
    }
    assert(final(out)@ =~= old(out)@ + decimal(n as nat));
}

/// `v.to_string()` for an `i32`.
pub fn i32_to_text(v: i32) -> (s: Vec<char>)
    ensures
        s@ == i32_text(v),
{
    let mut out: Vec<char> = Vec::new();
    if v < 0 {
        out.push('-');
        let m: u64 = (-(v as i64)) as u64;
        push_decimal(&mut out, m);
        assert(out@ =~= i32_text(v));
    } else {
        push_decimal(&mut out, v as u64);
        assert(out@ =~= i32_text(v));
    }
    out
}

} // verus!
