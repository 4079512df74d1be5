//! Character-level text utilities shared by the two output parsers:
//! classification, scanning, substring search, line splitting, and
//! decimal reading and formatting.

use vstd::prelude::*;

verus! {

/// Whitespace as the parsers understand it: the ASCII whitespace
/// characters that can stand inside one line.
pub open spec fn is_space(c: char) -> bool {
    c == ' ' || c == '\t' || c == '\r' || c == '\u{B}' || c == '\u{C}'
}

/// ASCII decimal digit.
pub open spec fn is_digit(c: char) -> bool {
    '0' <= c && c <= '9'
}

/// A character of a volume token: a digit or a decimal point.
pub open spec fn is_vol_char(c: char) -> bool {
    is_digit(c) || c == '.'
}

/// Numeric value of an ASCII decimal digit.
pub open spec fn digit_val(c: char) -> nat {
    (c as nat - '0' as nat) as nat
}

/// Value of a sequence of ASCII decimal digits, most significant first.
pub open spec fn digits_val(s: Seq<char>) -> nat
    decreases s.len(),
{
    if s.len() == 0 {
        0
    } else {
        digits_val(s.drop_last()) * 10 + digit_val(s.last())
    }
}

/// `n` held down to at most `cap`.
pub open spec fn capped(n: nat, cap: nat) -> nat {
    if n <= cap {
        n
    } else {
        cap
    }
}

/// First position `i <= k < n` satisfying `p`, or `-1` if there is none.
pub open spec fn first_pos(n: int, p: spec_fn(int) -> bool, i: int) -> int
    decreases n - i,
{
    if i < 0 || i >= n {
        -1
    } else if p(i) {
        i
    } else {
        first_pos(n, p, i + 1)
    }
}

pub proof fn lemma_first_pos(n: int, p: spec_fn(int) -> bool, i: int)
    requires
        0 <= i,
    ensures
        first_pos(n, p, i) == -1 ==> forall|k: int| i <= k < n ==> !(#[trigger] p(k)),
        first_pos(n, p, i) != -1 ==> {
            let r = first_pos(n, p, i);
            &&& i <= r < n
            &&& p(r)
            &&& forall|k: int| i <= k < r ==> !(#[trigger] p(k))
        },
    decreases n - i,
{
    if i < n && !p(i) {
        lemma_first_pos(n, p, i + 1);
    }
}

/// Pins down [`first_pos`]: a position satisfying `p`, before which no
/// position satisfies it, is the first.
pub proof fn lemma_first_pos_is(n: int, p: spec_fn(int) -> bool, i: int, r: int)
    requires
        0 <= i <= r < n,
        p(r),
        forall|k: int| i <= k < r ==> !(#[trigger] p(k)),
    ensures
        first_pos(n, p, i) == r,
    decreases r - i,
{
    if i < r {
        lemma_first_pos_is(n, p, i + 1, r);
    }
}

/// Pins down [`first_pos`]: if no position satisfies `p`, there is none.
pub proof fn lemma_first_pos_none(n: int, p: spec_fn(int) -> bool, i: int)
    requires
        0 <= i,
        forall|k: int| i <= k < n ==> !(#[trigger] p(k)),
    ensures
        first_pos(n, p, i) == -1,
    decreases n - i,
{
    if i < n {
        lemma_first_pos_none(n, p, i + 1);
    }
}

/// First position at or after `i` whose character fails `p`, or the end
/// of the sequence.
pub open spec fn skip_while(s: Seq<char>, p: spec_fn(char) -> bool, i: int) -> int
    decreases s.len() - i,
{
    if 0 <= i < s.len() && p(s[i]) {
        skip_while(s, p, i + 1)
    } else {
        i
    }
}

pub proof fn lemma_skip_while(s: Seq<char>, p: spec_fn(char) -> bool, i: int)
    requires
        0 <= i <= s.len(),
    ensures
        ({
            let r = skip_while(s, p, i);
            &&& i <= r <= s.len()
            &&& forall|k: int| i <= k < r ==> #[trigger] p(s[k])
            &&& r < s.len() ==> !p(s[r])
        }),
    decreases s.len() - i,
{
    if i < s.len() && p(s[i]) {
        lemma_skip_while(s, p, i + 1);
    }
}

/// Position right after the run of spaces starting at `i`.
pub open spec fn skip_spaces(s: Seq<char>, i: int) -> int {
    skip_while(s, |c: char| is_space(c), i)
}

/// Position right after the run of digits starting at `i`.
pub open spec fn skip_digits(s: Seq<char>, i: int) -> int {
    skip_while(s, |c: char| is_digit(c), i)
}

/// `pat` occurs in `s` starting at position `i`.
pub open spec fn matches_at(s: Seq<char>, pat: Seq<char>, i: int) -> bool {
    0 <= i && i + pat.len() <= s.len() && s.subrange(i, i + pat.len()) == pat
}

/// The sequence with one trailing carriage return removed.
pub open spec fn strip_cr(l: Seq<char>) -> Seq<char> {
    if l.len() > 0 && l.last() == '\r' {
        l.drop_last()
    } else {
        l
    }
}

/// The sequence without its trailing whitespace.
pub open spec fn trim_end_spec(s: Seq<char>) -> Seq<char>
    decreases s.len(),
{
    if s.len() > 0 && is_space(s.last()) {
        trim_end_spec(s.drop_last())
    } else {
        s
    }
}

/// The text split into lines: separated by newlines, each line with one
/// trailing carriage return removed, and no empty final line produced by
/// a trailing newline.
pub open spec fn spec_lines(s: Seq<char>) -> Seq<Seq<char>>
    decreases s.len(),
{
    if s.len() == 0 {
        Seq::empty()
    } else {
        let j = first_pos(s.len() as int, |k: int| s[k] == '\n', 0);
        if 0 <= j < s.len() {
            seq![strip_cr(s.subrange(0, j))] + spec_lines(s.subrange(j + 1, s.len() as int))
        } else {
            seq![strip_cr(s)]
        }
    }
}

// ---------------------------------------------------------------------
// Executable scanning
// ---------------------------------------------------------------------

/// Executable whitespace test.
pub fn space(c: char) -> (r: bool)
    ensures
        r == is_space(c),
{
    c == ' ' || c == '\t' || c == '\r' || c == '\u{B}' || c == '\u{C}'
}

/// Executable digit test.
pub fn digit(c: char) -> (r: bool)
    ensures
        r == is_digit(c),
{
    '0' <= c && c <= '9'
}

/// Executable volume-token character test.
pub fn vol_char(c: char) -> (r: bool)
    ensures
        r == is_vol_char(c),
{
    ('0' <= c && c <= '9') || c == '.'
}

/// Scans past the spaces starting at `i`.
pub fn scan_spaces(v: &Vec<char>, i: usize) -> (r: usize)
    requires
        i <= v@.len(),
    ensures
        r == skip_spaces(v@, i as int),
        i <= r <= v@.len(),
{
    proof {
        lemma_skip_while(v@, |c: char| is_space(c), i as int);
    }
    let mut j = i;
    while j < v.len() && space(v[j])
        invariant
            i <= j <= v@.len(),
            skip_spaces(v@, i as int) == skip_spaces(v@, j as int),
        decreases v@.len() - j,
    {
        j = j + 1;
    }
    j
}

/// Scans past the digits starting at `i`.
pub fn scan_digits(v: &Vec<char>, i: usize) -> (r: usize)
    requires
        i <= v@.len(),
    ensures
        r == skip_digits(v@, i as int),
        i <= r <= v@.len(),
{
    proof {
        lemma_skip_while(v@, |c: char| is_digit(c), i as int);
    }
    let mut j = i;
    while j < v.len() && digit(v[j])
        invariant
            i <= j <= v@.len(),
            skip_digits(v@, i as int) == skip_digits(v@, j as int),
        decreases v@.len() - j,
    {
        j = j + 1;
    }
    j
}

/// Scans past the volume-token characters starting at `i`.
pub fn scan_vol_chars(v: &Vec<char>, i: usize) -> (r: usize)
    requires
        i <= v@.len(),
    ensures
        r == skip_while(v@, |c: char| is_vol_char(c), i as int),
        i <= r <= v@.len(),
{
    proof {
        lemma_skip_while(v@, |c: char| is_vol_char(c), i as int);
    }
    let mut j = i;
    while j < v.len() && vol_char(v[j])
        invariant
            i <= j <= v@.len(),
            skip_while(v@, |c: char| is_vol_char(c), i as int) == skip_while(
                v@,
                |c: char| is_vol_char(c),
                j as int,
            ),
        decreases v@.len() - j,
    {
        j = j + 1;
    }
    j
}

/// Does the literal `pat` occur in `v` at position `i`?
pub fn lit_at(v: &Vec<char>, i: usize, pat: &str) -> (r: bool)
    requires
        i <= v@.len(),
    ensures
        r == matches_at(v@, pat@, i as int),
{
    let n = pat.unicode_len();
    let vn = v.len();
    if n > vn - i {
        return false;
    }
    let mut k: usize = 0;
    while k < n
        invariant
            0 <= k <= n,
            i + n <= vn == v@.len(),
            n == pat@.len(),
            forall|t: int| 0 <= t < k ==> v@[i + t] == pat@[t],
        decreases n - k,
    {
        if v[i + k] != pat.get_char(k) {
            assert(v@.subrange(i as int, i + n) != pat@) by {
                assert(v@.subrange(i as int, i + n)[k as int] != pat@[k as int]);
            }
            return false;
        }
        k = k + 1;
    }
    assert(v@.subrange(i as int, i + n) =~= pat@);
    true
}

/// Is the whole of `v` the literal `pat`?
pub fn line_is_lit(v: &Vec<char>, pat: &str) -> (r: bool)
    ensures
        r == (v@ == pat@),
{
    let n = pat.unicode_len();
    if v.len() != n {
        return false;
    }
    let r = lit_at(v, 0, pat);
    proof {
        if r {
            assert(v@.subrange(0, n as int) =~= v@);
        } else {
            assert(v@.subrange(0, n as int) =~= v@);
        }
    }
    r
}

/// Removes the trailing horizontal whitespace of `v`.
pub fn trim_end(v: &mut Vec<char>)
    ensures
        final(v)@ == trim_end_spec(old(v)@),
{
    let mut n = v.len();
    proof {
        assert(v@.subrange(0, n as int) =~= v@);
    }
    while n > 0 && space(v[n - 1])
        invariant
            n <= v@.len(),
            trim_end_spec(v@) == trim_end_spec(v@.subrange(0, n as int)),
        decreases n,
    {
        proof {
            let pre = v@.subrange(0, n as int);
            assert(pre.drop_last() =~= v@.subrange(0, n - 1));
        }
        n = n - 1;
    }
    proof {
        let pre = v@.subrange(0, n as int);
        assert(trim_end_spec(pre) == pre);
    }
    v.truncate(n);
}

/// Splits the text into lines, as [`spec_lines`] describes.
pub fn split_lines(text: &Vec<char>) -> (r: Vec<Vec<char>>)
    ensures
        r.deep_view() == spec_lines(text@),
{
    let mut out: Vec<Vec<char>> = Vec::new();
    let mut cur: Vec<char> = Vec::new();
    let mut i: usize = 0;
    proof {
        assert(cur@ + text@.subrange(0, text@.len() as int) =~= text@);
        assert(out.deep_view() =~~= Seq::<Seq<char>>::empty());
        assert(Seq::<Seq<char>>::empty() + spec_lines(text@) =~= spec_lines(text@));
    }
    while i < text.len()
        invariant
            i <= text@.len(),
            forall|k: int| 0 <= k < cur@.len() ==> cur@[k] != '\n',
            spec_lines(text@) == out.deep_view() + spec_lines(cur@ + text@.subrange(
                i as int,
                text@.len() as int,
            )),
        decreases text@.len() - i,
    {
        let ghost prev_out = out.deep_view();
        let ghost prev_cur = cur@;
        let ghost rest = text@.subrange(i as int, text@.len() as int);
        let ghost rest2 = text@.subrange(i + 1, text@.len() as int);
        let c = text[i];
        proof {
            assert(rest =~= seq![text@[i as int]] + rest2);
        }
        if c == '\n' {
            let mut done = cur;
            strip_trailing_cr(&mut done);
            out.push(done);
            cur = Vec::new();
            proof {
                lemma_lines_head(prev_cur, rest2);
                assert(prev_cur + rest =~= (prev_cur + seq!['\n']) + rest2);
                assert(out.deep_view() =~~= prev_out + seq![strip_cr(prev_cur)]);
                assert(prev_out + (seq![strip_cr(prev_cur)] + spec_lines(rest2)) =~= (prev_out
                    + seq![strip_cr(prev_cur)]) + spec_lines(rest2));
                assert(cur@ + rest2 =~= rest2);
            }
        } else {
            cur.push(c);
            proof {
                assert(cur@ + rest2 =~= prev_cur + rest);
            }
        }
        i = i + 1;
    }
    proof {
        assert(cur@ + text@.subrange(i as int, text@.len() as int) =~= cur@);
        lemma_lines_final(cur@);
    }
    let ghost last_out = out.deep_view();
    let ghost last_cur = cur@;
    if cur.len() > 0 {
        strip_trailing_cr(&mut cur);
        out.push(cur);
        proof {
            assert(out.deep_view() =~~= last_out + seq![strip_cr(last_cur)]);
        }
    } else {
        proof {
            assert(last_out + spec_lines(last_cur) =~= last_out);
        }
    }
    out
}

/// Removes one trailing carriage return, if present.
fn strip_trailing_cr(v: &mut Vec<char>)
    ensures
        final(v)@ == strip_cr(old(v)@),
{
    if v.len() > 0 && v[v.len() - 1] == '\r' {
        proof {
            assert(v@.subrange(0, v@.len() - 1) =~= v@.drop_last());
        }
        v.truncate(v.len() - 1);
    }
}

/// A newline-free prefix contributes exactly one line (or none if the
/// whole text is empty).
proof fn lemma_lines_final(cur: Seq<char>)
    requires
        forall|k: int| 0 <= k < cur.len() ==> cur[k] != '\n',
    ensures
        cur.len() == 0 ==> spec_lines(cur) == Seq::<Seq<char>>::empty(),
        cur.len() > 0 ==> spec_lines(cur) == seq![strip_cr(cur)],
{
    if cur.len() > 0 {
        let p = |k: int| cur[k] == '\n';
        lemma_first_pos(cur.len() as int, p, 0);
        let j = first_pos(cur.len() as int, p, 0);
        if 0 <= j < cur.len() {
            assert(p(j));
        }
    }
}

/// Splitting off the first (newline-free) line of `cur + '\n' + rest`.
proof fn lemma_lines_head(cur: Seq<char>, rest: Seq<char>)
    requires
        forall|k: int| 0 <= k < cur.len() ==> cur[k] != '\n',
    ensures
        spec_lines(cur + seq!['\n'] + rest) == seq![strip_cr(cur)] + spec_lines(rest),
{
    let s = cur + seq!['\n'] + rest;
    let p = |k: int| s[k] == '\n';
    lemma_first_pos(s.len() as int, p, 0);
    let j = first_pos(s.len() as int, p, 0);
    assert(s[cur.len() as int] == '\n');
    assert(p(cur.len() as int));
    assert(j != -1);
    assert(j <= cur.len());
    if j < cur.len() {
        assert(s[j] == cur[j]);
        assert(false);
    }
    assert(j == cur.len());
    assert(s.subrange(0, j) =~= cur);
    assert(s.subrange(j + 1, s.len() as int) =~= rest);
}

// ---------------------------------------------------------------------
// Decimal reading and formatting
// ---------------------------------------------------------------------

/// The digit character for the value `d` (for `d < 10`).
pub open spec fn digit_char(d: nat) -> char {
    if d == 0 {
        '0'
    } else if d == 1 {
        '1'
    } else if d == 2 {
        '2'
    } else if d == 3 {
        '3'
    } else if d == 4 {
        '4'
    } else if d == 5 {
        '5'
    } else if d == 6 {
        '6'
    } else if d == 7 {
        '7'
    } else if d == 8 {
        '8'
    } else {
        '9'
    }
}

/// The decimal digits of `n`, most significant first, no leading zeros
/// (a single `'0'` for zero).
pub open spec fn dec_digits(n: nat) -> Seq<char>
    decreases n,
{
    if n < 10 {
        seq![digit_char(n)]
    } else {
        dec_digits(n / 10).push(digit_char(n % 10))
    }
}

pub proof fn lemma_digit_char_val(d: nat)
    requires
        d < 10,
    ensures
        is_digit(digit_char(d)),
        digit_val(digit_char(d)) == d,
{
}

/// Reading the decimal digits of `n` back gives `n`.
pub proof fn lemma_dec_digits_val(n: nat)
    ensures
        dec_digits(n).len() >= 1,
        forall|k: int| 0 <= k < dec_digits(n).len() ==> is_digit(#[trigger] dec_digits(n)[k]),
        digits_val(dec_digits(n)) == n,
    decreases n,
{
    if n < 10 {
        lemma_digit_char_val(n);
        assert(dec_digits(n) =~= seq![digit_char(n)]);
        assert(seq![digit_char(n)].drop_last() =~= Seq::<char>::empty());
        assert(digits_val(seq![digit_char(n)]) == digits_val(Seq::<char>::empty()) * 10
            + digit_val(digit_char(n)));
        assert(digits_val(Seq::<char>::empty()) == 0);
    } else {
        lemma_dec_digits_val(n / 10);
        lemma_digit_char_val(n % 10);
        let pre = dec_digits(n / 10);
        assert(pre.push(digit_char(n % 10)).drop_last() =~= pre);
        assert(digits_val(dec_digits(n)) == (n / 10) * 10 + n % 10);
        assert((n / 10) * 10 + n % 10 == n) by (nonlinear_arith);
    }
}

/// Executable digit value.
pub fn char_digit(c: char) -> (d: u32)
    requires
        is_digit(c),
    ensures
        d == digit_val(c),
        d < 10,
{
    c as u32 - '0' as u32
}

/// Executable digit character.
pub fn char_of_digit(d: u32) -> (c: char)
    requires
        d < 10,
    ensures
        c == digit_char(d as nat),
{
    if d == 0 {
        '0'
    } else if d == 1 {
        '1'
    } else if d == 2 {
        '2'
    } else if d == 3 {
        '3'
    } else if d == 4 {
        '4'
    } else if d == 5 {
        '5'
    } else if d == 6 {
        '6'
    } else if d == 7 {
        '7'
    } else if d == 8 {
        '8'
    } else {
        '9'
    }
}

/// Appends one character to a string.
///
/// Relies on `String::push`: it appends exactly the given character and
/// changes nothing else.
#[verifier::external_body]
pub fn push_char(s: &mut String, c: char)
    ensures
        final(s)@ == old(s)@.push(c),
{
    s.push(c);
}

/// A copy of the characters `v[start .. end]`.
pub fn copy_range(v: &Vec<char>, start: usize, end: usize) -> (r: Vec<char>)
    requires
        start <= end <= v@.len(),
    ensures
        r@ == v@.subrange(start as int, end as int),
{
    let mut r: Vec<char> = Vec::new();
    let mut i = start;
    proof {
        assert(r@ =~= v@.subrange(start as int, start as int));
    }
    while i < end
        invariant
            start <= i <= end <= v@.len(),
            r@ == v@.subrange(start as int, i as int),
        decreases end - i,
    {
        r.push(v[i]);
        proof {
            assert(v@.subrange(start as int, i as int).push(v@[i as int]) =~= v@.subrange(
                start as int,
                i + 1,
            ));
        }
        i = i + 1;
    }
    r
}

/// The characters of `v`, as a string.
pub fn string_of(v: &Vec<char>) -> (r: String)
    ensures
        r@ == v@,
{
    let mut s = String::new();
    let mut i: usize = 0;
    while i < v.len()
        invariant
            i <= v@.len(),
            s@ == v@.subrange(0, i as int),
        decreases v@.len() - i,
    {
        push_char(&mut s, v[i]);
        proof {
            assert(v@.subrange(0, i as int).push(v@[i as int]) =~= v@.subrange(0, i + 1));
        }
        i = i + 1;
    }
    proof {
        assert(v@.subrange(0, i as int) =~= v@);
    }
    s
}

/// Appends the decimal digits of `n` to a string.
pub fn push_u32_decimal(s: &mut String, n: u32)
    ensures
        final(s)@ == old(s)@ + dec_digits(n as nat),
    decreases n,
{
    if n < 10 {
        push_char(s, char_of_digit(n));
        proof {
            assert(old(s)@.push(digit_char(n as nat)) =~= old(s)@ + seq![digit_char(n as nat)]);
        }
    } else {
        push_u32_decimal(s, n / 10);
        push_char(s, char_of_digit(n % 10));
        proof {
            assert((old(s)@ + dec_digits((n / 10) as nat)).push(digit_char((n % 10) as nat))
                =~= old(s)@ + dec_digits((n / 10) as nat).push(digit_char((n % 10) as nat)));
        }
    }
}

/// Reads the digit run `v[start .. end]` as a decimal number, held down
/// to at most `cap`.
pub fn parse_digits_capped(v: &Vec<char>, start: usize, end: usize, cap: u64) -> (r: u64)
    requires
        start <= end <= v@.len(),
        cap <= 0x1000_0000_0000_0000,
        forall|k: int| start <= k < end ==> is_digit(#[trigger] v@[k]),
    ensures
        r == capped(digits_val(v@.subrange(start as int, end as int)), cap as nat),
{
    let mut acc: u64 = 0;
    let mut i = start;
    proof {
        assert(v@.subrange(start as int, start as int) =~= Seq::<char>::empty());
    }
    while i < end
        invariant
            start <= i <= end <= v@.len(),
            cap <= 0x1000_0000_0000_0000,
            forall|k: int| start <= k < end ==> is_digit(#[trigger] v@[k]),
            acc == capped(digits_val(v@.subrange(start as int, i as int)), cap as nat),
        decreases end - i,
    {
        let d = char_digit(v[i]);
        let ghost prev = digits_val(v@.subrange(start as int, i as int));
        proof {
            assert(v@.subrange(start as int, i + 1).drop_last() =~= v@.subrange(
                start as int,
                i as int,
            ));
            assert(v@.subrange(start as int, i + 1).last() == v@[i as int]);
        }
        let t = acc * 10 + d as u64;
        if t > cap {
            acc = cap;
        } else {
            acc = t;
        }
        proof {
            let now = digits_val(v@.subrange(start as int, i + 1));
            assert(now == prev * 10 + digit_val(v@[i as int]));
            if prev > cap as nat {
                assert(prev * 10 >= prev);
            }
        }
        i = i + 1;
    }
    proof {
        assert(v@.subrange(start as int, i as int) =~= v@.subrange(start as int, end as int));
    }
    acc
}

} // verus!
