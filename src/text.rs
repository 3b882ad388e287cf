//! Plain-text helpers shared by the record formats: line splitting and
//! decimal numbers.
use vstd::prelude::*;
use vstd::string::*;

verus! {

/// The state reached after scanning `s` from the left: the lines already
/// ended by a newline, and the characters of the line still open.
pub open spec fn scan_lines(s: Seq<char>) -> (Seq<Seq<char>>, Seq<char>)
    decreases s.len(),
{
    if s.len() == 0 {
        (Seq::empty(), Seq::empty())
    } else {
        let (done, cur) = scan_lines(s.drop_last());
        if s.last() == '\n' {
            (done.push(strip_cr(cur)), Seq::empty())
        } else {
            (done, cur.push(s.last()))
        }
    }
}

/// A line ended by a newline drops one carriage return before it.
pub open spec fn strip_cr(l: Seq<char>) -> Seq<char> {
    if l.len() > 0 && l.last() == '\r' {
        l.drop_last()
    } else {
        l
    }
}

/// The lines of `s`: split at `\n` or `\r\n`, the last line ending optional.
pub open spec fn lines_of(s: Seq<char>) -> Seq<Seq<char>> {
    let (done, cur) = scan_lines(s);
    if cur.len() == 0 {
        done
    } else {
        done.push(cur)
    }
}

/// The lines of `ls` that are not empty, in order.
pub open spec fn non_empty(ls: Seq<Seq<char>>) -> Seq<Seq<char>>
    decreases ls.len(),
{
    if ls.len() == 0 {
        Seq::empty()
    } else if ls.last().len() > 0 {
        non_empty(ls.drop_last()).push(ls.last())
    } else {
        non_empty(ls.drop_last())
    }
}

pub open spec fn views(v: Seq<String>) -> Seq<Seq<char>> {
    v.map_values(|x: String| x@)
}

pub open spec fn is_digit(c: char) -> bool {
    '0' <= c && c <= '9'
}

pub open spec fn digit_value(c: char) -> nat {
    (c as u32 - '0' as u32) as nat
}

/// The number written by the decimal digits `s`.
pub open spec fn dec_value(s: Seq<char>) -> nat
    decreases s.len(),
{
    if s.len() == 0 {
        0
    } else {
        dec_value(s.drop_last()) * 10 + digit_value(s.last())
    }
}

/// What reading `s` as a `u32` gives: an optional `+`, then at least one
/// decimal digit and nothing else, for a value that fits.
pub open spec fn parse_u32_spec(s: Seq<char>) -> Option<u32> {
    let digits = unsigned_digits(s);
    if digits.len() > 0 && (forall|i: int| 0 <= i < digits.len() ==> is_digit(digits[i]))
        && dec_value(digits) <= u32::MAX {
        Some(dec_value(digits) as u32)
    } else {
        None
    }
}

/// `s` without the one `+` that may lead it.
pub open spec fn unsigned_digits(s: Seq<char>) -> Seq<char> {
    if s.len() > 0 && s[0] == '+' {
        s.drop_first()
    } else {
        s
    }
}

proof fn lemma_dec_value_grows(s: Seq<char>, c: char)
    requires
        is_digit(c),
    ensures
        dec_value(s.push(c)) == dec_value(s) * 10 + digit_value(c),
        dec_value(s.push(c)) >= dec_value(s),
{
    assert(s.push(c).drop_last() =~= s);
}

/// The digit worth `d`, below sixteen.
pub open spec fn digit_char(d: nat) -> char {
    seq!['0', '1', '2', '3', '4', '5', '6', '7', '8', '9', 'a', 'b', 'c', 'd', 'e', 'f'][d as int]
}

/// `n` written in base `base` (ten or sixteen), lower-case digits, no
/// sign, no leading zero.
pub open spec fn radix_text(n: nat, base: nat) -> Seq<char>
    recommends
        2 <= base <= 16,
    decreases n,
    via radix_text_decreases
{
    if n < base || base < 2 {
        seq![digit_char(n)]
    } else {
        radix_text(n / base, base).push(digit_char(n % base))
    }
}

#[via_fn]
proof fn radix_text_decreases(n: nat, base: nat) {
    if !(n < base || base < 2) {
        assert(n / base < n) by (nonlinear_arith)
            requires
                n >= base,
                base >= 2,
        ;
    }
}

/// Relies on `u32`'s `Display` (through `to_string`): its decimal digits.
#[verifier::external_body]
pub(crate) fn decimal(n: u32) -> (r: String)
    ensures
        r@ == radix_text(n as nat, 10),
{
    n.to_string()
}

/// Relies on `u64`'s `Display` (through `to_string`): its decimal digits.
#[verifier::external_body]
pub(crate) fn decimal_u64(n: u64) -> (r: String)
    ensures
        r@ == radix_text(n as nat, 10),
{
    n.to_string()
}

/// Relies on `u64`'s `LowerHex` (through `format!("{:x}")`): its
/// lower-case hexadecimal digits, without prefix.
#[verifier::external_body]
pub(crate) fn lower_hex(n: u64) -> (r: String)
    ensures
        r@ == radix_text(n as nat, 16),
{
    format!("{:x}", n)
}

/// Scanning text that ends a line, then more text, ends the same lines
/// first and then those of the rest.
pub proof fn lemma_scan_append(s: Seq<char>, t: Seq<char>)
    requires
        scan_lines(s).1.len() == 0,
    ensures
        scan_lines(s + t) == (scan_lines(s).0 + scan_lines(t).0, scan_lines(t).1),
    decreases t.len(),
{
    if t.len() == 0 {
        assert(s + t =~= s);
        assert(scan_lines(s).0 + scan_lines(t).0 =~= scan_lines(s).0);
    } else {
        lemma_scan_append(s, t.drop_last());
        assert((s + t).drop_last() =~= s + t.drop_last());
        assert((s + t).last() == t.last());
        let (d, _c) = scan_lines(t.drop_last());
        assert(scan_lines(s).0 + d.push(strip_cr(scan_lines(t.drop_last()).1)) =~= (scan_lines(s).0
            + d).push(strip_cr(scan_lines(t.drop_last()).1)));
    }
}

/// Text without a newline is one open line.
pub proof fn lemma_scan_one_line(a: Seq<char>)
    requires
        forall|i: int| 0 <= i < a.len() ==> a[i] != '\n',
    ensures
        scan_lines(a) == (Seq::<Seq<char>>::empty(), a),
    decreases a.len(),
{
    if a.len() > 0 {
        lemma_scan_one_line(a.drop_last());
        assert(a.drop_last().push(a.last()) =~= a);
    }
}

/// A line without newline, ended by one, scans to that line alone.
pub proof fn lemma_scan_ended_line(a: Seq<char>)
    requires
        forall|i: int| 0 <= i < a.len() ==> a[i] != '\n',
    ensures
        scan_lines(a + seq!['\n']) == (seq![strip_cr(a)], Seq::<char>::empty()),
{
    lemma_scan_one_line(a);
    let t = a + seq!['\n'];
    assert(t.drop_last() =~= a);
    assert(Seq::<Seq<char>>::empty().push(strip_cr(a)) =~= seq![strip_cr(a)]);
}

/// Lines that are all non-empty are all kept.
pub proof fn lemma_non_empty_keeps(ls: Seq<Seq<char>>)
    requires
        forall|i: int| 0 <= i < ls.len() ==> (#[trigger] ls[i]).len() > 0,
    ensures
        non_empty(ls) == ls,
    decreases ls.len(),
{
    if ls.len() > 0 {
        lemma_non_empty_keeps(ls.drop_last());
        assert(ls.drop_last().push(ls.last()) =~= ls);
    }
}

proof fn lemma_digit_char(d: nat)
    requires
        d < 10,
    ensures
        is_digit(digit_char(d)),
        digit_value(digit_char(d)) == d,
        digit_char(d) != '\n',
        digit_char(d) != '\r',
        digit_char(d) != '+',
{
    if d == 0 {
        assert(digit_char(d) == '0');
    } else if d == 1 {
        assert(digit_char(d) == '1');
    } else if d == 2 {
        assert(digit_char(d) == '2');
    } else if d == 3 {
        assert(digit_char(d) == '3');
    } else if d == 4 {
        assert(digit_char(d) == '4');
    } else if d == 5 {
        assert(digit_char(d) == '5');
    } else if d == 6 {
        assert(digit_char(d) == '6');
    } else if d == 7 {
        assert(digit_char(d) == '7');
    } else if d == 8 {
        assert(digit_char(d) == '8');
    } else {
        assert(digit_char(d) == '9');
    }
}

/// The decimal text of `n` is digits only, and worth `n`.
pub proof fn lemma_decimal_reads_back(n: nat)
    ensures
        radix_text(n, 10).len() > 0,
        forall|i: int| 0 <= i < radix_text(n, 10).len() ==> is_digit(#[trigger] radix_text(n, 10)[i]),
        forall|i: int| 0 <= i < radix_text(n, 10).len() ==> #[trigger] radix_text(n, 10)[i] != '\n',
        radix_text(n, 10).last() != '\r',
        radix_text(n, 10)[0] != '+',
        dec_value(radix_text(n, 10)) == n,
    decreases n,
{
    let t = radix_text(n, 10);
    if n < 10 {
        lemma_digit_char(n);
        assert(t =~= seq![digit_char(n)]);
        assert(t.drop_last() =~= Seq::<char>::empty());
        assert(dec_value(t.drop_last()) == 0);
        assert(t.last() == digit_char(n));
        assert(dec_value(t) == dec_value(t.drop_last()) * 10 + digit_value(t.last()));
    } else {
        lemma_decimal_reads_back(n / 10);
        lemma_digit_char(n % 10);
        let h = radix_text(n / 10, 10);
        assert(t == h.push(digit_char(n % 10)));
        assert(t.drop_last() =~= h);
        assert(t.last() == digit_char(n % 10));
        assert(dec_value(t) == dec_value(h) * 10 + digit_value(digit_char(n % 10)));
        assert(n == (n / 10) * 10 + n % 10);
        assert forall|i: int| 0 <= i < t.len() implies is_digit(#[trigger] t[i]) && t[i] != '\n' by {
            if i < h.len() {
                assert(t[i] == h[i]);
            }
        }
    }
}

/// Splits `s` into its lines, as `str::lines` does.
pub fn split_lines(s: &str) -> (r: Vec<String>)
    ensures
        views(r@) == lines_of(s@),
{
    let n = s.unicode_len();
    let mut done: Vec<String> = Vec::new();
    let mut start: usize = 0;
    let mut i: usize = 0;
    while i < n
        invariant
            n == s@.len(),
            start <= i <= n,
            scan_lines(s@.take(i as int)) == (views(done@), s@.subrange(start as int, i as int)),
        decreases n - i,
    {
        let c = s.get_char(i);
        proof {
            assert(s@.take(i + 1).drop_last() =~= s@.take(i as int));
            assert(s@.take(i + 1).last() == c);
        }
        if c == '\n' {
            let end: usize = if i > start && s.get_char(i - 1) == '\r' {
                i - 1
            } else {
                i
            };
            let line = String::from_str(s.substring_char(start, end));
            proof {
                let cur = s@.subrange(start as int, i as int);
                assert(line@ =~= strip_cr(cur));
            }
            let ghost before = done@;
            done.push(line);
            start = i + 1;
            proof {
                assert(views(done@) =~= views(before).push(line@));
            }
        } else {
            proof {
                assert(s@.subrange(start as int, i + 1) =~= s@.subrange(start as int, i as int).push(c));
            }
        }
        i = i + 1;
    }
    proof {
        assert(s@.take(n as int) =~= s@);
    }
    if start < n {
        let last = String::from_str(s.substring_char(start, n));
        let ghost before = done@;
        done.push(last);
        proof {
            assert(views(done@) =~= views(before).push(last@));
        }
    }
    done
}

/// Reads `s` as a `u32`, as `str::parse::<u32>` does.
pub fn parse_u32(s: &str) -> (r: Option<u32>)
    ensures
        r == parse_u32_spec(s@),
{
    let n = s.unicode_len();
    let from: usize = if n > 0 && s.get_char(0) == '+' {
        1
    } else {
        0
    };
    let ghost digits = unsigned_digits(s@);
    proof {
        assert(digits =~= s@.subrange(from as int, n as int));
    }
    if from == n {
        return None;
    }
    let mut acc: u64 = 0;
    let mut i: usize = from;
    while i < n
        invariant
            n == s@.len(),
            from <= i <= n,
            digits =~= s@.subrange(from as int, n as int),
            digits == unsigned_digits(s@),
            forall|j: int| from <= j < i ==> is_digit(#[trigger] s@[j]),
            acc <= u32::MAX,
            dec_value(s@.subrange(from as int, i as int)) == acc,
        decreases n - i,
    {
        let c = s.get_char(i);
        if c < '0' || c > '9' {
            proof {
                assert(digits[i - from] == c);
                assert(!is_digit(digits[i - from]));
            }
            return None;
        }
        let d = (c as u32 - '0' as u32) as u64;
        proof {
            assert(s@.subrange(from as int, i + 1) =~= s@.subrange(from as int, i as int).push(c));
            lemma_dec_value_grows(s@.subrange(from as int, i as int), c);
        }
        let next = acc * 10 + d;
        if next > u32::MAX as u64 {
            proof {
                lemma_prefix_bound(digits, (i + 1 - from) as int);
                assert(digits.take((i + 1 - from) as int) =~= s@.subrange(from as int, i + 1));
            }
            return None;
        }
        acc = next;
        i = i + 1;
    }
    proof {
        assert(s@.subrange(from as int, n as int) =~= digits);
    }
    Some(acc as u32)
}

/// An all-digit string is worth at least each of its prefixes.
proof fn lemma_prefix_bound(s: Seq<char>, k: int)
    requires
        0 <= k <= s.len(),
    ensures
        (forall|i: int| 0 <= i < s.len() ==> is_digit(s[i])) ==> dec_value(s.take(k)) <= dec_value(
            s,
        ),
    decreases s.len() - k,
{
    if k < s.len() && (forall|i: int| 0 <= i < s.len() ==> is_digit(s[i])) {
        lemma_prefix_bound(s, k + 1);
        assert(s.take(k + 1) =~= s.take(k).push(s[k]));
        lemma_dec_value_grows(s.take(k), s[k]);
    } else if k == s.len() {
        assert(s.take(k) =~= s);
    }
}

} // verus!
