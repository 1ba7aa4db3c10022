//! Character-level helpers for channel names: splitting on `:`, joining
//! segments, and signed decimal integers.

use vstd::prelude::*;
use vstd::string::*;

verus! {

/// The numeric value of a decimal digit character.
pub open spec fn digit_value(c: char) -> nat {
    (c as u32 - '0' as u32) as nat
}

pub open spec fn is_digit(c: char) -> bool {
    '0' <= c && c <= '9'
}

/// The digit character for `d < 10`.
pub open spec fn digit_char(d: nat) -> char {
    if d == 0 { '0' }
    else if d == 1 { '1' }
    else if d == 2 { '2' }
    else if d == 3 { '3' }
    else if d == 4 { '4' }
    else if d == 5 { '5' }
    else if d == 6 { '6' }
    else if d == 7 { '7' }
    else if d == 8 { '8' }
    else { '9' }
}

pub proof fn lemma_digit_char(d: nat)
    requires
        d < 10,
    ensures
        is_digit(digit_char(d)),
        digit_value(digit_char(d)) == d,
{
}

/// Every character of `s` is a decimal digit.
pub open spec fn all_digits(s: Seq<char>) -> bool {
    forall|i: int| 0 <= i < s.len() ==> is_digit(#[trigger] s[i])
}

/// The value of a string of decimal digits, most significant first.
pub open spec fn digits_value(s: Seq<char>) -> nat
    decreases s.len(),
{
    if s.len() == 0 {
        0
    } else {
        digits_value(s.drop_last()) * 10 + digit_value(s.last())
    }
}

/// The shortest decimal text of `n`.
pub open spec fn decimal(n: nat) -> Seq<char>
    decreases n,
{
    if n < 10 {
        seq![digit_char(n)]
    } else {
        decimal(n / 10).push(digit_char(n % 10))
    }
}

/// The text of a signed integer: a `-` for negative values, then its digits.
pub open spec fn int_text(i: int) -> Seq<char> {
    if i < 0 {
        seq!['-'] + decimal((-i) as nat)
    } else {
        decimal(i as nat)
    }
}

/// What parsing `s` as an `i64` gives: an optional sign, then one or more
/// decimal digits, whose value must fit the type.
pub open spec fn parse_i64(s: Seq<char>) -> Option<i64> {
    if s.len() > 0 && (s[0] == '-' || s[0] == '+') {
        let d = s.drop_first();
        if d.len() > 0 && all_digits(d) {
            let v: int = if s[0] == '-' { -digits_value(d) } else { digits_value(d) as int };
            if i64::MIN <= v <= i64::MAX { Some(v as i64) } else { None }
        } else {
            None
        }
    } else if s.len() > 0 && all_digits(s) && digits_value(s) <= i64::MAX {
        Some(digits_value(s) as i64)
    } else {
        None
    }
}

/// `s` cut at every `:`; a string without `:` is one segment.
pub open spec fn split(s: Seq<char>) -> Seq<Seq<char>>
    decreases s.len(),
{
    if s.len() == 0 {
        seq![Seq::<char>::empty()]
    } else {
        let p = split(s.drop_last());
        if s.last() == ':' {
            p.push(Seq::<char>::empty())
        } else {
            p.update(p.len() - 1, p.last().push(s.last()))
        }
    }
}

/// Segments put back together with a `:` between neighbours.
pub open spec fn join(segs: Seq<Seq<char>>) -> Seq<char>
    decreases segs.len(),
{
    if segs.len() <= 1 {
        if segs.len() == 0 { Seq::<char>::empty() } else { segs[0] }
    } else {
        join(segs.drop_last()) + seq![':'] + segs.last()
    }
}

pub open spec fn has_no_colon(s: Seq<char>) -> bool {
    forall|i: int| 0 <= i < s.len() ==> s[i] != ':'
}

pub proof fn lemma_split_len(s: Seq<char>)
    ensures
        split(s).len() >= 1,
    decreases s.len(),
{
    if s.len() > 0 {
        lemma_split_len(s.drop_last());
    }
}

/// A string without `:` splits into itself alone.
pub proof fn lemma_split_plain(s: Seq<char>)
    requires
        has_no_colon(s),
    ensures
        split(s) == seq![s],
    decreases s.len(),
{
    if s.len() > 0 {
        let t = s.drop_last();
        assert(has_no_colon(t));
        lemma_split_plain(t);
        assert(t.push(s.last()) =~= s);
        assert(split(s) =~= seq![s]);
    } else {
        assert(s =~= Seq::<char>::empty());
    }
}

/// Appending `:` and a plain segment to a string adds that segment to its split.
pub proof fn lemma_split_append(a: Seq<char>, b: Seq<char>)
    requires
        has_no_colon(b),
    ensures
        split(a + seq![':'] + b) == split(a).push(b),
    decreases b.len(),
{
    lemma_split_len(a);
    if b.len() == 0 {
        assert(a + seq![':'] + b =~= a.push(':'));
        assert((a.push(':')).drop_last() =~= a);
        assert(Seq::<char>::empty() =~= b);
    } else {
        let b0 = b.drop_last();
        assert(has_no_colon(b0));
        lemma_split_append(a, b0);
        let s = a + seq![':'] + b;
        assert(s.drop_last() =~= a + seq![':'] + b0);
        assert(s.last() == b.last());
        assert(b0.push(b.last()) =~= b);
        assert(split(s) =~= split(a).push(b));
    }
}

/// Joining plain segments and splitting the result gives the segments back.
pub proof fn lemma_split_join(segs: Seq<Seq<char>>)
    requires
        segs.len() >= 1,
        forall|i: int| 0 <= i < segs.len() ==> has_no_colon(#[trigger] segs[i]),
    ensures
        split(join(segs)) == segs,
    decreases segs.len(),
{
    if segs.len() == 1 {
        lemma_split_plain(segs[0]);
        assert(seq![segs[0]] =~= segs);
    } else {
        let p = segs.drop_last();
        assert forall|i: int| 0 <= i < p.len() implies has_no_colon(#[trigger] p[i]) by {
            assert(p[i] == segs[i]);
        }
        lemma_split_join(p);
        assert(has_no_colon(segs[segs.len() - 1]));
        lemma_split_append(join(p), segs.last());
        assert(p.push(segs.last()) =~= segs);
    }
}

pub proof fn lemma_decimal_digits(n: nat)
    ensures
        decimal(n).len() >= 1,
        all_digits(decimal(n)),
        digits_value(decimal(n)) == n,
    decreases n,
{
    lemma_digit_char(n % 10);
    if n >= 10 {
        lemma_decimal_digits(n / 10);
        lemma_digit_char(n % 10);
        let d = decimal(n / 10);
        let s = d.push(digit_char(n % 10));
        assert(s.drop_last() =~= d);
        assert forall|i: int| 0 <= i < s.len() implies is_digit(#[trigger] s[i]) by {
            if i < d.len() {
                assert(s[i] == d[i]);
            }
        }
        assert((n / 10) * 10 + n % 10 == n) by (nonlinear_arith);
        assert(decimal(n) == s);
        assert(s.last() == digit_char(n % 10));
        assert(digits_value(s) == digits_value(d) * 10 + digit_value(s.last()));
        assert(digits_value(s) == n);
    } else {
        assert(decimal(n) == seq![digit_char(n)]);
        assert(decimal(n).last() == digit_char(n));
        assert(decimal(n).drop_last() =~= Seq::<char>::empty());
        assert(digits_value(Seq::<char>::empty()) == 0);
        assert(digits_value(decimal(n)) == n);
    }
}

/// The text of an integer starts with a digit or a `-`, and holds no `:`.
pub proof fn lemma_int_text_shape(i: int)
    ensures
        int_text(i).len() >= 1,
        is_digit(int_text(i)[0]) || int_text(i)[0] == '-',
        has_no_colon(int_text(i)),
{
    if i < 0 {
        lemma_decimal_digits((-i) as nat);
        let d = decimal((-i) as nat);
        assert forall|k: int| 0 <= k < int_text(i).len() implies int_text(i)[k] != ':' by {
            if k > 0 {
                assert(int_text(i)[k] == d[k - 1]);
                assert(is_digit(d[k - 1]));
            }
        }
    } else {
        lemma_decimal_digits(i as nat);
        let d = decimal(i as nat);
        assert(is_digit(d[0]));
        assert forall|k: int| 0 <= k < d.len() implies d[k] != ':' by {
            assert(is_digit(d[k]));
        }
    }
}

/// Parsing the text of an `i64` gives the integer back.
pub proof fn lemma_parse_int_text(i: i64)
    ensures
        parse_i64(int_text(i as int)) == Some(i),
{
    let s = int_text(i as int);
    if i < 0 {
        lemma_decimal_digits((-i) as nat);
        let d = decimal((-i) as nat);
        assert(s.drop_first() =~= d);
        assert(s[0] == '-');
    } else {
        lemma_decimal_digits(i as nat);
        let d = decimal(i as nat);
        assert(is_digit(d[0]));
    }
}

/// The characters of `s`, in order.
pub(crate) fn chars_of(s: &str) -> (r: Vec<char>)
    ensures
        r@ == s@,
{
    let n = s.unicode_len();
    let mut v: Vec<char> = Vec::new();
    let mut i: usize = 0;
    while i < n
        invariant
            n == s@.len(),
            0 <= i <= n,
            v@ == s@.take(i as int),
        decreases n - i,
    {
        v.push(s.get_char(i));
        proof {
            assert(s@.take(i as int + 1) =~= s@.take(i as int).push(s@[i as int]));
        }
        i = i + 1;
    }
    proof {
        assert(s@.take(n as int) =~= s@);
    }
    v
}

/// A string of exactly these characters.
pub(crate) fn string_of(c: &[char]) -> (r: String)
    ensures
        r@ == c@,
{
    let mut out = String::new();
    let mut i: usize = 0;
    while i < c.len()
        invariant
            0 <= i <= c@.len(),
            out@ == c@.take(i as int),
        decreases c@.len() - i,
    {
        push_char(&mut out, c[i]);
        proof {
            assert(c@.take(i as int + 1) =~= c@.take(i as int).push(c@[i as int]));
        }
        i = i + 1;
    }
    proof {
        assert(c@.take(i as int) =~= c@);
    }
    out
}

/// Relies on `String::push`: appends one character.
#[verifier::external_body]
pub(crate) fn push_char(s: &mut String, c: char)
    ensures
        final(s)@ == old(s)@.push(c),
{
    s.push(c)
}

/// Whether a run of characters is exactly the text of `lit`.
pub fn seg_eq(seg: &[char], lit: &str) -> (r: bool)
    ensures
        r == (seg@ == lit@),
{
    let n = lit.unicode_len();
    if seg.len() != n {
        return false;
    }
    let mut i: usize = 0;
    while i < n
        invariant
            n == lit@.len(),
            seg@.len() == n,
            0 <= i <= n,
            forall|k: int| 0 <= k < i ==> seg@[k] == lit@[k],
        decreases n - i,
    {
        if seg[i] != lit.get_char(i) {
            return false;
        }
        i = i + 1;
    }
    assert(seg@ =~= lit@);
    true
}

/// Cuts `s` at every `:`.
pub fn split_colons(s: &[char]) -> (r: Vec<Vec<char>>)
    ensures
        r@.len() == split(s@).len(),
        forall|k: int| 0 <= k < r@.len() ==> #[trigger] r@[k]@ == split(s@)[k],
{
    let mut done: Vec<Vec<char>> = Vec::new();
    let mut cur: Vec<char> = Vec::new();
    let mut i: usize = 0;
    proof {
        assert(s@.take(0) =~= Seq::<char>::empty());
    }
    while i < s.len()
        invariant
            0 <= i <= s@.len(),
            split(s@.take(i as int)).len() == done@.len() + 1,
            forall|k: int| 0 <= k < done@.len() ==> #[trigger] done@[k]@ == split(s@.take(i as int))[k],
            cur@ == split(s@.take(i as int)).last(),
        decreases s@.len() - i,
    {
        let c = s[i];
        proof {
            lemma_split_len(s@.take(i as int));
            assert(s@.take(i as int + 1).drop_last() =~= s@.take(i as int));
            assert(s@.take(i as int + 1).last() == c);
        }
        if c == ':' {
            let old_cur = cur;
            done.push(old_cur);
            cur = Vec::new();
            proof {
                assert(cur@ =~= Seq::<char>::empty());
            }
        } else {
            cur.push(c);
        }
        i = i + 1;
    }
    proof {
        assert(s@.take(i as int) =~= s@);
    }
    done.push(cur);
    done
}

/// Parses a signed decimal integer as `i64`'s `FromStr` does.
pub fn parse_i64_chars(s: &[char]) -> (r: Option<i64>)
    ensures
        r == parse_i64(s@),
{
    let n = s.len();
    if n == 0 {
        return None;
    }
    let neg = s[0] == '-';
    let start: usize = if s[0] == '-' || s[0] == '+' { 1 } else { 0 };
    if start == n {
        return None;
    }
    let limit: u64 = if neg { 9223372036854775808 } else { 9223372036854775807 };
    let mut acc: u64 = 0;
    let mut over = false;
    let mut i: usize = start;
    proof {
        assert(s@.subrange(start as int, start as int) =~= Seq::<char>::empty());
    }
    while i < n
        invariant
            n == s@.len(),
            n > 0,
            start <= i <= n,
            start == 0 || start == 1,
            start == 1 <==> (s@[0] == '-' || s@[0] == '+'),
            neg == (s@[0] == '-'),
            limit == (if neg { 9223372036854775808u64 } else { 9223372036854775807u64 }),
            all_digits(s@.subrange(start as int, i as int)),
            !over ==> acc as nat == digits_value(s@.subrange(start as int, i as int)),
            over ==> digits_value(s@.subrange(start as int, i as int)) > limit,
            acc <= limit,
        decreases n - i,
    {
        let c = s[i];
        if !('0' <= c && c <= '9') {
            proof {
                let t = s@.subrange(start as int, n as int);
                assert(t[i - start] == c);
                assert(!all_digits(t));
                if start == 1 {
                    assert(s@.drop_first() =~= t);
                } else {
                    assert(s@ =~= t);
                }
            }
            return None;
        }
        let d: u64 = (c as u32 - '0' as u32) as u64;
        let ghost prev = s@.subrange(start as int, i as int);
        let ghost next = s@.subrange(start as int, i as int + 1);
        proof {
            assert(next.drop_last() =~= prev);
            assert(next.last() == c);
            assert forall|k: int| 0 <= k < next.len() implies is_digit(#[trigger] next[k]) by {
                if k < prev.len() {
                    assert(next[k] == prev[k]);
                }
            }
        }
        if !over {
            if acc > (limit - d) / 10 {
                proof {
                    assert(acc * 10 + d > limit) by (nonlinear_arith)
                        requires acc > (limit - d) / 10, d <= 9, d <= limit;
                }
                over = true;
            } else {
                proof {
                    assert(acc * 10 + d <= limit) by (nonlinear_arith)
                        requires acc <= (limit - d) / 10, d <= limit;
                }
                acc = acc * 10 + d;
            }
        } else {
            proof {
                assert(digits_value(next) >= digits_value(prev)) by (nonlinear_arith)
                    requires digits_value(next) == digits_value(prev) * 10 + digit_value(c);
            }
        }
        i = i + 1;
    }
    proof {
        let t = s@.subrange(start as int, n as int);
        if start == 1 {
            assert(s@.drop_first() =~= t);
        } else {
            assert(s@ =~= t);
        }
    }
    if over {
        None
    } else if neg {
        Some((-(acc as i128)) as i64)
    } else {
        Some(acc as i64)
    }
}

/// Appends the decimal digits of `n`.
pub fn push_decimal(out: &mut String, n: u64)
    ensures
        final(out)@ == old(out)@ + decimal(n as nat),
    decreases n,
{
    if n >= 10 {
        push_decimal(out, n / 10);
    }
    let d = n % 10;
    let c: char = if d == 0 { '0' }
        else if d == 1 { '1' }
        else if d == 2 { '2' }
        else if d == 3 { '3' }
        else if d == 4 { '4' }
        else if d == 5 { '5' }
        else if d == 6 { '6' }
        else if d == 7 { '7' }
        else if d == 8 { '8' }
        else { '9' };
    push_char(out, c);
    proof {
        if n >= 10 {
            assert(final(out)@ =~= old(out)@ + decimal(n as nat));
        } else {
            assert(final(out)@ =~= old(out)@ + decimal(n as nat));
        }
    }
}

/// Appends the text of a signed integer.
pub fn push_int_text(out: &mut String, i: i64)
    ensures
        final(out)@ == old(out)@ + int_text(i as int),
{
    if i < 0 {
        push_char(out, '-');
        let m: u64 = (-(i as i128)) as u64;
        push_decimal(out, m);
        assert(final(out)@ =~= old(out)@ + int_text(i as int));
    } else {
        push_decimal(out, i as u64);
    }
}

} // verus!
