//! Text as sequences of characters: lines, prefixes, searches, decimal numbers.
//!
//! Each operation is stated the way the standard library documents its counterpart on
//! `str` (`lines`, `trim_start`, `starts_with`, `split_once`, `split_whitespace`,
//! `parse`), and implemented on character vectors.

use vstd::prelude::*;

use crate::mask::{split_lines, white_space};

verus! {

/// `s` without its last character when that character is a carriage return.
pub open spec fn strip_cr(s: Seq<char>) -> Seq<char> {
    if s.len() > 0 && s.last() == '\r' {
        s.drop_last()
    } else {
        s
    }
}

/// The lines of `s`, as `str::lines` gives them: split at `'\n'`, each line ended by a
/// `'\n'` losing one `'\r'` before it, and no empty last line after a final `'\n'`.
pub open spec fn text_lines(s: Seq<char>) -> Seq<Seq<char>> {
    let pieces = split_lines(s);
    let ended = pieces.drop_last().map_values(|l: Seq<char>| strip_cr(l));
    if pieces.last().len() == 0 {
        ended
    } else {
        ended.push(pieces.last())
    }
}

/// The lines joined, each followed by `'\n'`; a lone `'\n'` when there is none (what
/// `lines.join("\n") + "\n"` gives).
pub open spec fn joined(lines: Seq<Seq<char>>) -> Seq<char> {
    if lines.len() == 0 {
        seq!['\n']
    } else {
        ended_lines(lines)
    }
}

/// Each line followed by `'\n'`, one after the other.
pub open spec fn ended_lines(lines: Seq<Seq<char>>) -> Seq<char>
    decreases lines.len(),
{
    if lines.len() == 0 {
        Seq::empty()
    } else {
        ended_lines(lines.drop_last()) + lines.last().push('\n')
    }
}

/// Number of white-space characters at the start of `s`.
pub open spec fn leading_space(s: Seq<char>) -> nat
    decreases s.len(),
{
    if s.len() > 0 && white_space(s[0]) {
        1 + leading_space(s.skip(1))
    } else {
        0
    }
}

/// `s` without its leading white space.
pub open spec fn trim_start(s: Seq<char>) -> Seq<char> {
    s.skip(leading_space(s) as int)
}

/// Does `s` start with `p`?
pub open spec fn starts_with(s: Seq<char>, p: Seq<char>) -> bool {
    p.len() <= s.len() && s.take(p.len() as int) == p
}

/// Does `p` occur in `s` at position `i`?
pub open spec fn occurs_at(s: Seq<char>, p: Seq<char>, i: int) -> bool {
    0 <= i && i + p.len() <= s.len() && s.subrange(i, i + p.len()) == p
}

/// First position, from `i` on, where `p` occurs in `s`.
pub open spec fn find_from(s: Seq<char>, p: Seq<char>, i: nat) -> Option<nat>
    decreases s.len() + 1 - i,
{
    if i + p.len() > s.len() {
        None
    } else if occurs_at(s, p, i as int) {
        Some(i)
    } else {
        find_from(s, p, i + 1)
    }
}

/// What the search finds: the first occurrence from `i` on, if any.
pub proof fn lemma_find_from(s: Seq<char>, p: Seq<char>, i: nat)
    ensures
        match find_from(s, p, i) {
            Some(j) => i <= j && j + p.len() <= s.len() && occurs_at(s, p, j as int) && forall|k: int|
                i <= k < j ==> !#[trigger] occurs_at(s, p, k),
            None => forall|k: int| i <= k ==> !#[trigger] occurs_at(s, p, k),
        },
    decreases s.len() + 1 - i,
{
    if i + p.len() <= s.len() && !occurs_at(s, p, i as int) {
        lemma_find_from(s, p, i + 1);
    }
}

/// A pattern whose last character occurs nowhere else in it, written after a text that
/// does not contain it, is found right there.
pub proof fn lemma_find_after(before: Seq<char>, p: Seq<char>, after: Seq<char>)
    requires
        p.len() > 0,
        find_from(before, p, 0) is None,
        forall|j: int| 0 <= j < p.len() - 1 ==> #[trigger] p[j] != p[p.len() - 1],
    ensures
        find_from(before + p + after, p, 0) == Some(before.len()),
{
    let s = before + p + after;
    let b = before.len() as int;
    let n = p.len() as int;
    lemma_find_from(before, p, 0);
    lemma_find_from(s, p, 0);
    assert(s.subrange(b, b + n) =~= p);
    assert(occurs_at(s, p, b));
    assert forall|k: int| 0 <= k < b implies !occurs_at(s, p, k) by {
        if occurs_at(s, p, k) {
            if k + n <= b {
                assert(s.subrange(k, k + n) =~= before.subrange(k, k + n));
                assert(occurs_at(before, p, k));
            } else {
                let j = k + n - 1 - b;
                assert(s.subrange(k, k + n)[n - 1] == s[k + n - 1]);
                assert(s[k + n - 1] == p[j]);
                assert(0 <= j < n - 1);
            }
        }
    }
}

/// Digits followed by something that does not start with a digit: the digit run is those
/// digits.
pub proof fn lemma_digit_run_of(d: Seq<char>, rest: Seq<char>)
    requires
        all_digits(d),
        rest.len() == 0 || !is_digit(rest[0]),
    ensures
        digit_run(d + rest) == d.len(),
    decreases d.len(),
{
    if d.len() > 0 {
        assert(is_digit(d[0]));
        assert((d + rest)[0] == d[0]);
        assert((d + rest).skip(1) =~= d.skip(1) + rest);
        assert forall|i: int| 0 <= i < d.skip(1).len() implies #[trigger] is_digit(d.skip(1)[i]) by {
            assert(d.skip(1)[i] == d[i + 1]);
        }
        lemma_digit_run_of(d.skip(1), rest);
    } else {
        assert(d + rest =~= rest);
    }
}

/// First position where `p` occurs in `s`.
pub open spec fn find(s: Seq<char>, p: Seq<char>) -> Option<nat> {
    find_from(s, p, 0)
}

/// What comes before and after the first occurrence of `p` in `s`.
pub open spec fn split_once(s: Seq<char>, p: Seq<char>) -> Option<(Seq<char>, Seq<char>)> {
    match find(s, p) {
        Some(i) => Some((s.take(i as int), s.skip((i + p.len()) as int))),
        None => None,
    }
}

/// The pieces of `s` between the occurrences of `p` (`p` not empty), as `str::split`.
pub open spec fn split_all(s: Seq<char>, p: Seq<char>) -> Seq<Seq<char>>
    recommends
        p.len() > 0,
    decreases s.len(),
{
    match find(s, p) {
        Some(i) => if p.len() > 0 && i + p.len() <= s.len() {
            seq![s.take(i as int)] + split_all(s.skip((i + p.len()) as int), p)
        } else {
            seq![s]
        },
        None => seq![s],
    }
}

/// Is `c` an ASCII decimal digit?
pub open spec fn is_digit(c: char) -> bool {
    '0' <= c && c <= '9'
}

/// Number of ASCII digits at the start of `s`.
pub open spec fn digit_run(s: Seq<char>) -> nat
    decreases s.len(),
{
    if s.len() > 0 && is_digit(s[0]) {
        1 + digit_run(s.skip(1))
    } else {
        0
    }
}

/// Value of a string of decimal digits.
pub open spec fn digits_value(s: Seq<char>) -> nat
    decreases s.len(),
{
    if s.len() == 0 {
        0
    } else {
        digits_value(s.drop_last()) * 10 + ((s.last() as int) - ('0' as int)) as nat
    }
}

/// Are all the characters of `s` digits?
pub open spec fn all_digits(s: Seq<char>) -> bool {
    forall|i: int| 0 <= i < s.len() ==> #[trigger] is_digit(s[i])
}

/// What `str::parse` gives for an unsigned integer of at most `max`: an optional `+`,
/// then at least one digit and nothing else, of value at most `max`.
pub open spec fn parse_unsigned(s: Seq<char>, max: nat) -> Option<nat> {
    let body = if s.len() > 0 && s[0] == '+' {
        s.skip(1)
    } else {
        s
    };
    if body.len() > 0 && all_digits(body) && digits_value(body) <= max {
        Some(digits_value(body))
    } else {
        None
    }
}

/// The first word of `s`: what `split_whitespace().next()` gives.
pub open spec fn first_word(s: Seq<char>) -> Option<Seq<char>> {
    let t = trim_start(s);
    if t.len() == 0 {
        None
    } else {
        Some(t.take(word_len(t) as int))
    }
}

/// Number of characters before the first white space of `s`.
pub open spec fn word_len(s: Seq<char>) -> nat
    decreases s.len(),
{
    if s.len() > 0 && !white_space(s[0]) {
        1 + word_len(s.skip(1))
    } else {
        0
    }
}

/// The characters of a string.
pub fn chars_of(text: &str) -> (r: Vec<char>)
    ensures
        r@ == text@,
{
    broadcast use vstd::string::group_string_axioms;

    let mut out: Vec<char> = Vec::new();
    for c in it: text.chars()
        invariant
            out@ == it.seq().take(it.index() as int),
    {
        out.push(c);
    }
    out
}

/// Appends the characters of `t` to `out`.
pub fn push_str(out: &mut Vec<char>, t: &str)
    ensures
        final(out)@ == old(out)@ + t@,
{
    let chars = chars_of(t);
    push_all(out, &chars);
}

/// Appends `s` to `out`.
pub fn push_all(out: &mut Vec<char>, s: &[char])
    ensures
        final(out)@ == old(out)@ + s@,
{
    let ghost start = out@;
    let mut i: usize = 0;
    while i < s.len()
        invariant
            i <= s@.len(),
            out@ == start + s@.take(i as int),
        decreases s@.len() - i,
    {
        out.push(s[i]);
        i = i + 1;
        assert(out@ =~= start + s@.take(i as int));
    }
    assert(s@.take(s@.len() as int) =~= s@);
}

/// Is `c` white space, as `char::is_whitespace` says?
pub fn is_space(c: char) -> (r: bool)
    ensures
        r == white_space(c),
{
    let u = c as u32;
    (0x9 <= u && u <= 0xD) || u == 0x20 || u == 0x85 || u == 0xA0 || u == 0x1680 || (0x2000 <= u
        && u <= 0x200A) || u == 0x2028 || u == 0x2029 || u == 0x202F || u == 0x205F || u == 0x3000
}

/// Leading white space skips one character at a time.
proof fn lemma_leading_space(s: Seq<char>, k: nat)
    requires
        k <= s.len(),
        forall|j: int| 0 <= j < k ==> #[trigger] white_space(s[j]),
    ensures
        leading_space(s) == k + leading_space(s.skip(k as int)),
    decreases k,
{
    if k > 0 {
        assert(white_space(s[0]));
        assert(leading_space(s) == 1 + leading_space(s.skip(1)));
        assert forall|j: int| 0 <= j < k - 1 implies #[trigger] white_space(s.skip(1)[j]) by {
            assert(s.skip(1)[j] == s[j + 1]);
        }
        lemma_leading_space(s.skip(1), (k - 1) as nat);
        assert(s.skip(1).skip(k - 1) =~= s.skip(k as int));
    } else {
        assert(s.skip(0) =~= s);
    }
}

/// Number of white-space characters at the start of `s`.
pub fn leading_space_len(s: &[char]) -> (r: usize)
    ensures
        r == leading_space(s@),
        r <= s@.len(),
{
    let mut k: usize = 0;
    while k < s.len() && is_space(s[k])
        invariant
            k <= s@.len(),
            forall|j: int| 0 <= j < k ==> #[trigger] white_space(s@[j]),
        decreases s@.len() - k,
    {
        k = k + 1;
    }
    proof {
        lemma_leading_space(s@, k as nat);
    }
    k
}

/// Does `s`, from position `at`, start with `p`?
pub fn matches_at(s: &[char], at: usize, p: &[char]) -> (r: bool)
    requires
        at <= s@.len(),
    ensures
        r == starts_with(s@.skip(at as int), p@),
        r == occurs_at(s@, p@, at as int),
{
    let n = s.len();
    if p.len() > n - at {
        assert(!occurs_at(s@, p@, at as int));
        return false;
    }
    let mut j: usize = 0;
    while j < p.len()
        invariant
            n == s@.len(),
            at + p@.len() <= s@.len(),
            j <= p@.len(),
            forall|x: int| 0 <= x < j ==> s@[at + x] == p@[x],
        decreases p@.len() - j,
    {
        if s[at + j] != p[j] {
            assert(s@.skip(at as int).take(p@.len() as int)[j as int] != p@[j as int]);
            assert(s@.subrange(at as int, at + p@.len())[j as int] != p@[j as int]);
            return false;
        }
        j = j + 1;
    }
    assert(s@.skip(at as int).take(p@.len() as int) =~= p@);
    assert(s@.subrange(at as int, at + p@.len()) =~= p@);
    true
}

/// First position, from `from` on, where `p` occurs in `s`.
pub fn find_at(s: &[char], p: &[char], from: usize) -> (r: Option<usize>)
    requires
        from <= s@.len(),
    ensures
        r == (match find_from(s@, p@, from as nat) {
            Some(i) => Some(i as usize),
            None => None::<usize>,
        }),
{
    let n = s.len();
    let mut i = from;
    while p.len() <= n - i
        invariant
            n == s@.len(),
            from <= i <= n,
            find_from(s@, p@, from as nat) == find_from(s@, p@, i as nat),
        decreases n - i,
    {
        if i == n {
            assert(s@.subrange(i as int, i as int) =~= p@);
        }
        if matches_at(s, i, p) {
            return Some(i);
        }
        i = i + 1;
    }
    None
}

/// Digit value of an ASCII digit.
fn digit_value(c: char) -> (r: u8)
    requires
        is_digit(c),
    ensures
        r == (c as int) - ('0' as int),
{
    ((c as u32) - ('0' as u32)) as u8
}

/// The value of digits only grows as digits are appended.
proof fn lemma_digits_value_grows(s: Seq<char>, k: int)
    requires
        0 <= k <= s.len(),
        all_digits(s),
    ensures
        digits_value(s.take(k)) <= digits_value(s),
    decreases s.len() - k,
{
    if k < s.len() {
        assert(s.drop_last().take(k) =~= s.take(k));
        assert forall|i: int| 0 <= i < s.drop_last().len() implies #[trigger] is_digit(s.drop_last()[i]) by {
            assert(s.drop_last()[i] == s[i]);
        }
        lemma_digits_value_grows(s.drop_last(), k);
    } else {
        assert(s.take(k) =~= s);
    }
}

/// Reads an unsigned decimal number of at most `max`, as `str::parse` does.
pub fn parse_number(s: &[char], max: u64) -> (r: Option<u64>)
    ensures
        r == (match parse_unsigned(s@, max as nat) {
            Some(v) => Some(v as u64),
            None => None::<u64>,
        }),
{
    let start: usize = if s.len() > 0 && s[0] == '+' {
        1
    } else {
        0
    };
    let ghost body = if s@.len() > 0 && s@[0] == '+' {
        s@.skip(1)
    } else {
        s@
    };
    assert(body =~= s@.skip(start as int));
    if start >= s.len() {
        return None;
    }
    let mut value: u64 = 0;
    let mut i = start;
    while i < s.len()
        invariant
            start <= i <= s@.len(),
            body =~= s@.skip(start as int),
            body == (if s@.len() > 0 && s@[0] == '+' {
                s@.skip(1)
            } else {
                s@
            }),
            value <= max,
            all_digits(s@.subrange(start as int, i as int)),
            value == digits_value(s@.subrange(start as int, i as int)),
        decreases s@.len() - i,
    {
        let c = s[i];
        let ghost prefix = s@.subrange(start as int, i + 1);
        assert(prefix.drop_last() =~= s@.subrange(start as int, i as int));
        if !('0' <= c && c <= '9') {
            assert(body[i - start] == c);
            assert(!is_digit(body[i - start]));
            assert(!all_digits(body));
            assert(parse_unsigned(s@, max as nat) is None);
            return None;
        }
        let d = digit_value(c) as u64;
        assert(prefix.last() == c);
        assert(digits_value(prefix) == value * 10 + d);
        if d > max {
            proof {
                assert forall|x: int| 0 <= x < prefix.len() implies #[trigger] is_digit(prefix[x]) by {
                    if x < prefix.len() - 1 {
                        assert(prefix[x] == s@.subrange(start as int, i as int)[x]);
                    }
                }
                if all_digits(body) {
                    lemma_digits_value_grows(body, i + 1 - start);
                    assert(body.take(i + 1 - start) =~= prefix);
                }
            }
            return None;
        }
        proof {
            assert forall|x: int| 0 <= x < prefix.len() implies #[trigger] is_digit(prefix[x]) by {
                if x < prefix.len() - 1 {
                    assert(prefix[x] == s@.subrange(start as int, i as int)[x]);
                }
            }
        }
        if value > (max - d) / 10 {
            proof {
                assert(value * 10 + d > max) by (nonlinear_arith)
                    requires
                        value > (max - d) / 10,
                        d <= max,
                ;
                if all_digits(body) {
                    lemma_digits_value_grows(body, i + 1 - start);
                    assert(body.take(i + 1 - start) =~= prefix);
                }
            }
            return None;
        }
        proof {
            assert(value * 10 + d <= max) by (nonlinear_arith)
                requires
                    value <= (max - d) / 10,
                    d <= max,
            ;
        }
        value = value * 10 + d;
        i = i + 1;
    }
    assert(s@.subrange(start as int, s@.len() as int) =~= body);
    Some(value)
}

/// Number of characters of `s` before its first white space.
fn word_length(s: &[char], from: usize) -> (r: usize)
    requires
        from <= s@.len(),
    ensures
        from + r <= s@.len(),
        r == word_len(s@.skip(from as int)),
{
    let mut k = from;
    while k < s.len() && !is_space(s[k])
        invariant
            from <= k <= s@.len(),
            word_len(s@.skip(from as int)) == (k - from) + word_len(s@.skip(k as int)),
        decreases s@.len() - k,
    {
        proof {
            assert(s@.skip(k as int).skip(1) =~= s@.skip(k + 1));
            assert(s@.skip(k as int)[0] == s@[k as int]);
        }
        k = k + 1;
    }
    k - from
}

/// The first word of `s`, as `split_whitespace().next()` gives it.
pub fn first_word_of(s: &[char]) -> (r: Option<Vec<char>>)
    ensures
        match r {
            Some(w) => first_word(s@) == Some(w@),
            None => first_word(s@) is None,
        },
{
    let len = s.len();
    let lead = leading_space_len(s);
    if lead == len {
        return None;
    }
    let n = word_length(s, lead);
    let mut w: Vec<char> = Vec::new();
    let mut i = lead;
    while i < lead + n
        invariant
            len == s@.len(),
            lead <= i <= lead + n,
            lead + n <= s@.len(),
            w@ == s@.subrange(lead as int, i as int),
        decreases lead + n - i,
    {
        w.push(s[i]);
        i = i + 1;
        assert(w@ =~= s@.subrange(lead as int, i as int));
    }
    assert(trim_start(s@).take(n as int) =~= w@);
    Some(w)
}

/// Number of ASCII digits of `s` from position `from` on.
pub fn digit_run_len(s: &[char], from: usize) -> (r: usize)
    requires
        from <= s@.len(),
    ensures
        from + r <= s@.len(),
        r == digit_run(s@.skip(from as int)),
        all_digits(s@.subrange(from as int, from + r)),
{
    let mut k = from;
    while k < s.len() && '0' <= s[k] && s[k] <= '9'
        invariant
            from <= k <= s@.len(),
            digit_run(s@.skip(from as int)) == (k - from) + digit_run(s@.skip(k as int)),
            all_digits(s@.subrange(from as int, k as int)),
        decreases s@.len() - k,
    {
        proof {
            assert(s@.skip(k as int).skip(1) =~= s@.skip(k + 1));
            assert(s@.skip(k as int)[0] == s@[k as int]);
            assert forall|x: int| 0 <= x < k + 1 - from implies #[trigger] is_digit(s@.subrange(from as int, k + 1)[x]) by {
                if x < k - from {
                    assert(s@.subrange(from as int, k + 1)[x] == s@.subrange(from as int, k as int)[x]);
                }
            }
        }
        k = k + 1;
    }
    k - from
}

/// The characters `s[from .. to]`.
pub fn slice_of(s: &[char], from: usize, to: usize) -> (r: Vec<char>)
    requires
        from <= to <= s@.len(),
    ensures
        r@ == s@.subrange(from as int, to as int),
{
    let mut out: Vec<char> = Vec::new();
    let mut i = from;
    while i < to
        invariant
            from <= i <= to,
            to <= s@.len(),
            out@ == s@.subrange(from as int, i as int),
        decreases to - i,
    {
        out.push(s[i]);
        i = i + 1;
        assert(out@ =~= s@.subrange(from as int, i as int));
    }
    out
}

/// Strict equality of two character sequences.
pub fn same_chars(a: &[char], b: &[char]) -> (r: bool)
    ensures
        r == (a@ == b@),
{
    if a.len() != b.len() {
        return false;
    }
    let mut i: usize = 0;
    while i < a.len()
        invariant
            a@.len() == b@.len(),
            i <= a@.len(),
            forall|x: int| 0 <= x < i ==> a@[x] == b@[x],
        decreases a@.len() - i,
    {
        if a[i] != b[i] {
            return false;
        }
        i = i + 1;
    }
    assert(a@ =~= b@);
    true
}

} // verus!
