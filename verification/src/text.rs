//! Character-sequence utilities shared by the tokenizer, the block builder and
//! the entity mappers: line splitting, trimming, joining, splitting on spaces,
//! each as a spec-level model with a verified executable counterpart.

use vstd::prelude::*;
use vstd::string::StrSliceExecFns;
use vstd::string::StringExecFns;

verus! {

/// The Unicode `White_Space` characters, as trimming recognizes them.
pub open spec fn is_ws(c: char) -> bool {
    let u = c as u32;
    u == 32 || u == 9 || u == 10 || u == 11 || u == 12 || u == 13 || u == 0x85 || u == 0xA0
        || u == 0x1680 || (0x2000 <= u && u <= 0x200A) || u == 0x2028 || u == 0x2029
        || u == 0x202F || u == 0x205F || u == 0x3000
}

/// Whether `c` is a whitespace character.
pub fn is_whitespace_char(c: char) -> (r: bool)
    ensures
        r == is_ws(c),
{
    let u = c as u32;
    u == 32 || u == 9 || u == 10 || u == 11 || u == 12 || u == 13 || u == 0x85 || u == 0xA0
        || u == 0x1680 || (0x2000 <= u && u <= 0x200A) || u == 0x2028 || u == 0x2029
        || u == 0x202F || u == 0x205F || u == 0x3000
}

/// Index of the first occurrence of `c` in `s` at or after `i`, or `s.len()`.
pub open spec fn find_from(s: Seq<char>, i: int, c: char) -> int
    decreases s.len() - i,
{
    if i < 0 || i >= s.len() {
        s.len() as int
    } else if s[i] == c {
        i
    } else {
        find_from(s, i + 1, c)
    }
}

pub proof fn lemma_find_from_bounds(s: Seq<char>, i: int, c: char)
    requires
        0 <= i <= s.len(),
    ensures
        i <= find_from(s, i, c) <= s.len(),
        forall|j: int| i <= j < find_from(s, i, c) ==> s[j] != c,
        find_from(s, i, c) < s.len() ==> s[find_from(s, i, c)] == c,
    decreases s.len() - i,
{
    if i < s.len() && s[i] != c {
        lemma_find_from_bounds(s, i + 1, c);
    }
}

/// A scan that stops at the first hit pins down `find_from`.
pub proof fn lemma_find_fix(s: Seq<char>, i: int, j: int, c: char)
    requires
        0 <= i <= j <= s.len(),
        forall|k: int| i <= k < j ==> s[k] != c,
        j < s.len() ==> s[j] == c,
    ensures
        find_from(s, i, c) == j,
    decreases j - i,
{
    if i < j {
        lemma_find_fix(s, i + 1, j, c);
    }
}

/// Dropping a prefix shifts the first occurrence with it.
pub proof fn lemma_find_from_skip(s: Seq<char>, i: int, c: char)
    requires
        0 <= i <= s.len(),
    ensures
        find_from(s, i, c) == i + find_from(s.skip(i), 0, c),
{
    lemma_find_from_bounds(s, i, c);
    let j = find_from(s, i, c);
    let t = s.skip(i);
    assert(forall|k: int| 0 <= k < j - i ==> t[k] != c);
    assert(j - i < t.len() ==> t[j - i] == c);
    lemma_find_fix(t, 0, j - i, c);
}

/// First index at or after `i` that holds a non-whitespace character.
pub open spec fn ws_prefix_end(s: Seq<char>, i: int) -> int
    decreases s.len() - i,
{
    if i < 0 || i >= s.len() {
        s.len() as int
    } else if is_ws(s[i]) {
        ws_prefix_end(s, i + 1)
    } else {
        i
    }
}

pub proof fn lemma_ws_prefix_end(s: Seq<char>, i: int)
    requires
        0 <= i <= s.len(),
    ensures
        i <= ws_prefix_end(s, i) <= s.len(),
        forall|j: int| i <= j < ws_prefix_end(s, i) ==> is_ws(s[j]),
        ws_prefix_end(s, i) < s.len() ==> !is_ws(s[ws_prefix_end(s, i)]),
    decreases s.len() - i,
{
    if i < s.len() && is_ws(s[i]) {
        lemma_ws_prefix_end(s, i + 1);
    }
}

proof fn lemma_ws_prefix_fix(s: Seq<char>, i: int, a: int)
    requires
        0 <= i <= a <= s.len(),
        forall|j: int| i <= j < a ==> is_ws(s[j]),
        a < s.len() ==> !is_ws(s[a]),
    ensures
        ws_prefix_end(s, i) == a,
    decreases a - i,
{
    if i < a {
        lemma_ws_prefix_fix(s, i + 1, a);
    }
}

/// Index before which trailing whitespace (looking down from `i`) ends.
pub open spec fn ws_suffix_start(s: Seq<char>, i: int) -> int
    decreases i,
{
    if i <= 0 {
        0
    } else if is_ws(s[i - 1]) {
        ws_suffix_start(s, i - 1)
    } else {
        i
    }
}

pub proof fn lemma_ws_suffix_start(s: Seq<char>, i: int)
    requires
        0 <= i <= s.len(),
    ensures
        0 <= ws_suffix_start(s, i) <= i,
        forall|j: int| ws_suffix_start(s, i) <= j < i ==> is_ws(s[j]),
        ws_suffix_start(s, i) > 0 ==> !is_ws(s[ws_suffix_start(s, i) - 1]),
    decreases i,
{
    if i > 0 && is_ws(s[i - 1]) {
        lemma_ws_suffix_start(s, i - 1);
    }
}

proof fn lemma_ws_suffix_fix(s: Seq<char>, b: int, i: int)
    requires
        0 <= b <= i <= s.len(),
        forall|j: int| b <= j < i ==> is_ws(s[j]),
        b > 0 ==> !is_ws(s[b - 1]),
    ensures
        ws_suffix_start(s, i) == b,
    decreases i - b,
{
    if b < i {
        lemma_ws_suffix_fix(s, b, i - 1);
    }
}

/// `s` with leading and trailing whitespace removed.
pub open spec fn trimmed(s: Seq<char>) -> Seq<char> {
    let a = ws_prefix_end(s, 0);
    if a == s.len() {
        Seq::empty()
    } else {
        s.subrange(a, ws_suffix_start(s, s.len() as int))
    }
}

/// A copy of `s` with surrounding whitespace removed.
pub fn trim_str(s: &str) -> (r: String)
    ensures
        r@ == trimmed(s@),
{
    let n = s.unicode_len();
    let mut a: usize = 0;
    while a < n && is_whitespace_char(s.get_char(a))
        invariant
            0 <= a <= n,
            n == s@.len(),
            forall|j: int| 0 <= j < a ==> is_ws(s@[j]),
        decreases n - a,
    {
        a = a + 1;
    }
    proof {
        lemma_ws_prefix_fix(s@, 0, a as int);
    }
    if a == n {
        let r = String::new();
        assert(r@ =~= trimmed(s@));
        return r;
    }
    let mut b: usize = n;
    while b > a && is_whitespace_char(s.get_char(b - 1))
        invariant
            a <= b <= n,
            n == s@.len(),
            forall|j: int| b <= j < n ==> is_ws(s@[j]),
        decreases b,
    {
        b = b - 1;
    }
    proof {
        assert(!is_ws(s@[a as int]));
        assert(b > a) by {
            if b == a {
                assert(is_ws(s@[a as int]));
            }
        }
        lemma_ws_suffix_fix(s@, b as int, n as int);
    }
    let sub = s.substring_char(a, b);
    let r = sub.to_owned();
    assert(r@ =~= trimmed(s@));
    r
}

/// Whether `p` is a prefix of `s`.
pub open spec fn is_prefix(p: Seq<char>, s: Seq<char>) -> bool {
    p.len() <= s.len() && s.subrange(0, p.len() as int) == p
}

/// Whether `s` starts with `p`.
pub fn starts_with_str(s: &str, p: &str) -> (r: bool)
    ensures
        r == is_prefix(p@, s@),
{
    let np = p.unicode_len();
    let ns = s.unicode_len();
    if np > ns {
        return false;
    }
    let mut i: usize = 0;
    while i < np
        invariant
            0 <= i <= np,
            np == p@.len(),
            ns == s@.len(),
            np <= ns,
            forall|j: int| 0 <= j < i ==> s@[j] == p@[j],
        decreases np - i,
    {
        if s.get_char(i) != p.get_char(i) {
            assert(s@.subrange(0, np as int)[i as int] != p@[i as int]);
            return false;
        }
        i = i + 1;
    }
    assert(s@.subrange(0, np as int) =~= p@);
    true
}

/// Whether two string slices hold the same characters.
pub fn str_eq(a: &str, b: &str) -> (r: bool)
    ensures
        r == (a@ == b@),
{
    let na = a.unicode_len();
    let nb = b.unicode_len();
    if na != nb {
        return false;
    }
    let mut i: usize = 0;
    while i < na
        invariant
            0 <= i <= na,
            na == a@.len(),
            na == b@.len(),
            forall|j: int| 0 <= j < i ==> a@[j] == b@[j],
        decreases na - i,
    {
        if a.get_char(i) != b.get_char(i) {
            return false;
        }
        i = i + 1;
    }
    assert(a@ =~= b@);
    true
}

/// The document split into lines: separators are `\n`, with a preceding `\r`
/// removed from the line; a trailing separator opens no further line.
pub open spec fn lines_of(s: Seq<char>) -> Seq<Seq<char>>
    decreases s.len(),
    via lines_of_dec
{
    if s.len() == 0 {
        Seq::empty()
    } else {
        let j = find_from(s, 0, '\n');
        let seg = s.take(j);
        if j == s.len() {
            seq![seg]
        } else {
            let line = if seg.len() > 0 && seg.last() == '\r' {
                seg.drop_last()
            } else {
                seg
            };
            seq![line] + lines_of(s.skip(j + 1))
        }
    }
}

#[via_fn]
proof fn lines_of_dec(s: Seq<char>) {
    if s.len() > 0 {
        lemma_find_from_bounds(s, 0, '\n');
    }
}

pub proof fn lemma_lines_of_bounds(s: Seq<char>)
    ensures
        lines_of(s).len() <= s.len(),
        forall|i: int| 0 <= i < lines_of(s).len() ==> #[trigger] lines_of(s)[i].len() <= s.len(),
    decreases s.len(),
{
    if s.len() > 0 {
        lemma_find_from_bounds(s, 0, '\n');
        let j = find_from(s, 0, '\n');
        if j < s.len() {
            lemma_lines_of_bounds(s.skip(j + 1));
        }
    }
}

/// The lines of a document.
pub fn split_into_lines(s: &str) -> (r: Vec<String>)
    ensures
        r@.map_values(|t: String| t@) == lines_of(s@),
{
    let n = s.unicode_len();
    let mut out: Vec<String> = Vec::new();
    let mut pos: usize = 0;
    proof {
        assert(s@.skip(0) =~= s@);
        assert(out@.map_values(|t: String| t@) =~= Seq::<Seq<char>>::empty());
    }
    while pos < n
        invariant
            0 <= pos <= n,
            n == s@.len(),
            lines_of(s@) == out@.map_values(|t: String| t@) + lines_of(s@.skip(pos as int)),
        decreases n - pos,
    {
        let ghost old_views = out@.map_values(|t: String| t@);
        let ghost rest = s@.skip(pos as int);
        let mut j: usize = pos;
        while j < n && s.get_char(j) != '\n'
            invariant
                pos <= j <= n,
                n == s@.len(),
                forall|k: int| pos <= k < j ==> s@[k] != '\n',
            decreases n - j,
        {
            j = j + 1;
        }
        proof {
            lemma_find_fix(s@, pos as int, j as int, '\n');
            lemma_find_from_skip(s@, pos as int, '\n');
            assert(find_from(rest, 0, '\n') == j - pos);
        }
        let terminated = j < n;
        let end: usize = if terminated && j > pos && s.get_char(j - 1) == '\r' {
            j - 1
        } else {
            j
        };
        let piece = s.substring_char(pos, end);
        let owned = piece.to_owned();
        out.push(owned);
        proof {
            assert(out@.map_values(|t: String| t@) =~= old_views + seq![
                s@.subrange(pos as int, end as int),
            ]);
            let seg = rest.take((j - pos) as int);
            assert(seg =~= s@.subrange(pos as int, j as int));
            if terminated {
                let line = if seg.len() > 0 && seg.last() == '\r' {
                    seg.drop_last()
                } else {
                    seg
                };
                assert(lines_of(rest) == seq![line] + lines_of(rest.skip(j - pos + 1)));
                if j > pos && s@[j - 1] == '\r' {
                    assert(seg.len() > 0 && seg.last() == '\r');
                    assert(line =~= s@.subrange(pos as int, end as int));
                } else {
                    assert(!(seg.len() > 0 && seg.last() == '\r'));
                    assert(line =~= s@.subrange(pos as int, end as int));
                }
                assert(rest.skip(j - pos + 1) =~= s@.skip(j + 1));
                assert(lines_of(s@) =~= (old_views + seq![s@.subrange(pos as int, end as int)])
                    + lines_of(s@.skip(j + 1)));
            } else {
                assert(end == n && j == n);
                assert(seg =~= rest);
                assert(lines_of(rest) == seq![seg]);
                assert(seg =~= s@.subrange(pos as int, end as int));
                assert(lines_of(s@) =~= old_views + seq![s@.subrange(pos as int, end as int)]);
                assert(s@.skip(n as int).len() == 0);
                assert(lines_of(s@.skip(n as int)) =~= Seq::<Seq<char>>::empty());
                assert(lines_of(s@) =~= (old_views + seq![s@.subrange(pos as int, end as int)])
                    + lines_of(s@.skip(n as int)));
            }
        }
        if terminated {
            pos = j + 1;
        } else {
            pos = n;
        }
    }
    proof {
        assert(s@.skip(pos as int).len() == 0);
        assert(lines_of(s@.skip(pos as int)) =~= Seq::<Seq<char>>::empty());
        assert(lines_of(s@) =~= out@.map_values(|t: String| t@));
    }
    out
}

/// The pieces joined by single newlines.
pub open spec fn joined_nl(ts: Seq<Seq<char>>) -> Seq<char>
    decreases ts.len(),
{
    if ts.len() == 0 {
        Seq::empty()
    } else if ts.len() == 1 {
        ts[0]
    } else {
        ts[0] + seq!['\n'] + joined_nl(ts.drop_first())
    }
}

/// Unfolding `joined_nl` at a suffix.
pub proof fn lemma_joined_nl_skip(views: Seq<Seq<char>>, i: int)
    requires
        0 <= i < views.len(),
    ensures
        i + 1 < views.len() ==> joined_nl(views.skip(i)) == views[i] + seq!['\n'] + joined_nl(
            views.skip(i + 1),
        ),
        i + 1 == views.len() ==> joined_nl(views.skip(i)) == views[i],
{
    let t = views.skip(i);
    assert(t.len() == views.len() - i);
    assert(t[0] == views[i]);
    if i + 1 < views.len() {
        assert(t.drop_first() =~= views.skip(i + 1));
    }
}

/// Join the pieces with newlines between them.
pub fn join_with_newlines(ts: &Vec<String>) -> (r: String)
    ensures
        r@ == joined_nl(ts@.map_values(|t: String| t@)),
{
    let mut r = String::new();
    let mut i: usize = 0;
    let ghost views = ts@.map_values(|t: String| t@);
    proof {
        assert(views.skip(0) =~= views);
    }
    while i < ts.len()
        invariant
            0 <= i <= ts@.len(),
            views == ts@.map_values(|t: String| t@),
            views.len() == ts@.len(),
            joined_nl(views) == r@ + joined_nl(views.skip(i as int)),
        decreases ts@.len() - i,
    {
        proof {
            lemma_joined_nl_skip(views, i as int);
        }
        r.append(ts[i].as_str());
        if i + 1 < ts.len() {
            r.append("\n");
            proof {
                reveal_strlit("\n");
                assert("\n"@ =~= seq!['\n']);
                assert(joined_nl(views.skip(i as int)) == views[i as int] + seq!['\n']
                    + joined_nl(views.skip(i + 1)));
            }
        } else {
            proof {
                assert(joined_nl(views.skip(i as int)) == views[i as int]);
                assert(views.skip(i + 1).len() == 0);
                assert(joined_nl(views.skip(i + 1)) =~= Seq::<char>::empty());
                assert(r@ =~= r@ + Seq::<char>::empty());
            }
        }
        i = i + 1;
    }
    proof {
        assert(views.skip(i as int).len() == 0);
        assert(joined_nl(views.skip(i as int)) =~= Seq::<char>::empty());
        assert(r@ =~= r@ + Seq::<char>::empty());
    }
    r
}

/// The first word of a line: everything before the first space, or the whole
/// line if it holds no space.
pub open spec fn first_word_of(s: Seq<char>) -> Seq<char> {
    s.take(find_from(s, 0, ' '))
}

/// `s` split on single spaces; consecutive spaces give empty pieces.
pub open spec fn space_split(s: Seq<char>) -> Seq<Seq<char>>
    decreases s.len(),
    via space_split_dec
{
    let j = find_from(s, 0, ' ');
    if j == s.len() {
        seq![s]
    } else {
        seq![s.take(j)] + space_split(s.skip(j + 1))
    }
}

#[via_fn]
proof fn space_split_dec(s: Seq<char>) {
    lemma_find_from_bounds(s, 0, ' ');
}

/// Split `s` on spaces.
pub fn split_on_spaces(s: &str) -> (r: Vec<String>)
    ensures
        r@.map_values(|t: String| t@) == space_split(s@),
{
    let n = s.unicode_len();
    let mut out: Vec<String> = Vec::new();
    let mut pos: usize = 0;
    proof {
        assert(s@.skip(0) =~= s@);
        assert(out@.map_values(|t: String| t@) =~= Seq::<Seq<char>>::empty());
    }
    loop
        invariant
            0 <= pos <= n,
            n == s@.len(),
            space_split(s@) == out@.map_values(|t: String| t@) + space_split(
                s@.skip(pos as int),
            ),
        decreases n - pos,
    {
        let ghost old_views = out@.map_values(|t: String| t@);
        let ghost rest = s@.skip(pos as int);
        let mut j: usize = pos;
        while j < n && s.get_char(j) != ' '
            invariant
                pos <= j <= n,
                n == s@.len(),
                forall|k: int| pos <= k < j ==> s@[k] != ' ',
            decreases n - j,
        {
            j = j + 1;
        }
        proof {
            lemma_find_fix(s@, pos as int, j as int, ' ');
            lemma_find_from_skip(s@, pos as int, ' ');
            assert(find_from(rest, 0, ' ') == j - pos);
        }
        let piece = s.substring_char(pos, j);
        out.push(piece.to_owned());
        proof {
            assert(out@.map_values(|t: String| t@) =~= old_views + seq![
                s@.subrange(pos as int, j as int),
            ]);
            assert(rest.take((j - pos) as int) =~= s@.subrange(pos as int, j as int));
        }
        if j == n {
            proof {
                assert(rest.take((j - pos) as int) =~= rest);
                assert(space_split(rest) == seq![rest]);
                assert(space_split(s@) =~= out@.map_values(|t: String| t@));
            }
            return out;
        }
        proof {
            assert(space_split(rest) == seq![rest.take((j - pos) as int)] + space_split(
                rest.skip(j - pos + 1),
            ));
            assert(rest.skip(j - pos + 1) =~= s@.skip(j + 1));
            assert(space_split(s@) =~= out@.map_values(|t: String| t@) + space_split(
                s@.skip(j + 1),
            ));
        }
        pos = j + 1;
    }
}

/// Whether `c` is a decimal digit.
pub open spec fn is_digit(c: char) -> bool {
    48 <= c as u32 <= 57
}

/// The value of a decimal digit.
pub open spec fn digit_val(c: char) -> int {
    c as u32 - 48
}

/// The value of a digit string, most significant first.
pub open spec fn digits_val(s: Seq<char>) -> int
    decreases s.len(),
{
    if s.len() == 0 {
        0
    } else {
        digits_val(s.drop_last()) * 10 + digit_val(s.last())
    }
}

/// Whether every character is a decimal digit.
pub open spec fn all_digits(s: Seq<char>) -> bool {
    forall|i: int| 0 <= i < s.len() ==> is_digit(s[i])
}

/// What parsing this text as a 32-bit signed integer yields: an optional
/// sign, then one or more digits, nothing else, and the value must fit.
pub open spec fn parsed_i32(s: Seq<char>) -> Option<i32> {
    let neg = s.len() > 0 && s[0] == '-';
    let plus = s.len() > 0 && s[0] == '+';
    let digits = if neg || plus {
        s.drop_first()
    } else {
        s
    };
    if digits.len() == 0 || !all_digits(digits) {
        None
    } else if neg {
        if digits_val(digits) <= 0x8000_0000 {
            Some((-digits_val(digits)) as i32)
        } else {
            None
        }
    } else {
        if digits_val(digits) <= 0x7FFF_FFFF {
            Some(digits_val(digits) as i32)
        } else {
            None
        }
    }
}

proof fn lemma_digits_val_nonneg(s: Seq<char>)
    requires
        all_digits(s),
    ensures
        digits_val(s) >= 0,
    decreases s.len(),
{
    if s.len() > 0 {
        assert(all_digits(s.drop_last())) by {
            assert(forall|i: int| 0 <= i < s.len() - 1 ==> s.drop_last()[i] == s[i]);
        }
        lemma_digits_val_nonneg(s.drop_last());
    }
}

/// Parse a 32-bit signed integer exactly as the standard decimal parser
/// does: an optional sign, then only digits, rejecting overflow.
pub fn parse_i32_str(s: &str) -> (r: Option<i32>)
    ensures
        r == parsed_i32(s@),
{
    let n = s.unicode_len();
    if n == 0 {
        return None;
    }
    let c0 = s.get_char(0);
    let neg = c0 == '-';
    let plus = c0 == '+';
    let start: usize = if neg || plus {
        1
    } else {
        0
    };
    let ghost digits = if neg || plus {
        s@.drop_first()
    } else {
        s@
    };
    proof {
        assert(digits =~= s@.subrange(start as int, n as int));
    }
    if start == n {
        return None;
    }
    let mut i: usize = start;
    let mut mag: i64 = 0;
    let mut over = false;
    while i < n
        invariant
            start <= i <= n,
            start <= 1,
            n == s@.len(),
            n >= 1,
            neg == (s@.len() > 0 && s@[0] == '-'),
            plus == (s@.len() > 0 && s@[0] == '+'),
            start == if neg || plus {
                1int
            } else {
                0int
            },
            digits == (if neg || plus {
                s@.drop_first()
            } else {
                s@
            }),
            digits == s@.subrange(start as int, n as int),
            forall|k: int| start <= k < i ==> is_digit(s@[k]),
            !over ==> mag == digits_val(s@.subrange(start as int, i as int)),
            !over ==> 0 <= mag <= 0x8000_0000i64,
            over ==> digits_val(s@.subrange(start as int, i as int)) > 0x8000_0000,
        decreases n - i,
    {
        let c = s.get_char(i);
        let u = c as u32;
        if u < 48 || u > 57 {
            proof {
                assert(!is_digit(s@[i as int]));
                assert(digits[i - start] == s@[i as int]);
                assert(!all_digits(digits));
            }
            return None;
        }
        let d = (u - 48) as i64;
        let ghost pre = s@.subrange(start as int, i as int);
        let ghost post = s@.subrange(start as int, i as int + 1);
        proof {
            assert(post.drop_last() =~= pre);
            assert(post.last() == s@[i as int]);
            assert(digits_val(post) == digits_val(pre) * 10 + digit_val(s@[i as int]));
        }
        if !over {
            mag = mag * 10 + d;
            if mag > 0x8000_0000i64 {
                over = true;
            }
        } else {
            proof {
                assert(digits_val(pre) > 0x8000_0000);
                assert(digits_val(pre) * 10 >= digits_val(pre));
                assert(digit_val(s@[i as int]) >= 0);
                assert(digits_val(post) > 0x8000_0000);
            }
        }
        i = i + 1;
    }
    proof {
        assert(digits =~= s@.subrange(start as int, n as int));
        assert(all_digits(digits)) by {
            assert(forall|k: int|
                0 <= k < digits.len() ==> digits[k] == s@[k + start] && is_digit(s@[k + start]));
        }
        lemma_digits_val_nonneg(digits);
    }
    if neg {
        if over || mag > 0x8000_0000i64 {
            None
        } else {
            Some((0 - mag) as i32)
        }
    } else {
        if over || mag > 0x7FFF_FFFFi64 {
            None
        } else {
            Some(mag as i32)
        }
    }
}

} // verus!
