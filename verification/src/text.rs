//! Character-level helpers shared by the address and destination grammars.
//!
//! Text is handled as a `Vec<char>` whose view is the `Seq<char>` of the
//! string itself; the grammars are stated over `Seq<char>` ranges.
use vstd::prelude::*;
use vstd::string::*;

verus! {

/// A decimal digit `0`..=`9`.
pub open spec fn is_dec_digit(c: char) -> bool {
    '0' <= c && c <= '9'
}

/// A hexadecimal digit, in either case.
pub open spec fn is_hex_digit(c: char) -> bool {
    ||| is_dec_digit(c)
    ||| ('a' <= c && c <= 'f')
    ||| ('A' <= c && c <= 'F')
}

/// The value of a decimal digit.
pub open spec fn dec_digit_value(c: char) -> nat {
    (c as int - '0' as int) as nat
}

/// The value of a hexadecimal digit.
pub open spec fn hex_digit_value(c: char) -> nat {
    if is_dec_digit(c) {
        dec_digit_value(c)
    } else if 'a' <= c && c <= 'f' {
        (c as int - 'a' as int + 10) as nat
    } else {
        (c as int - 'A' as int + 10) as nat
    }
}

/// Every character of `s` is a decimal digit.
pub open spec fn all_dec_digits(s: Seq<char>) -> bool {
    forall|i: int| 0 <= i < s.len() ==> #[trigger] is_dec_digit(s[i])
}

/// Every character of `s` is a hexadecimal digit.
pub open spec fn all_hex_digits(s: Seq<char>) -> bool {
    forall|i: int| 0 <= i < s.len() ==> #[trigger] is_hex_digit(s[i])
}

/// The number that a string of decimal digits denotes.
pub open spec fn decimal_value(s: Seq<char>) -> nat
    decreases s.len(),
{
    if s.len() == 0 {
        0
    } else {
        decimal_value(s.drop_last()) * 10 + dec_digit_value(s.last())
    }
}

/// The number that a string of hexadecimal digits denotes.
pub open spec fn hex_value(s: Seq<char>) -> nat
    decreases s.len(),
{
    if s.len() == 0 {
        0
    } else {
        hex_value(s.drop_last()) * 16 + hex_digit_value(s.last())
    }
}

/// The pieces of `s` between the occurrences of `sep`, in order; an empty
/// piece stands wherever two separators meet or a separator opens or closes
/// `s`, so there is always one piece more than there are separators.
pub open spec fn split(s: Seq<char>, sep: char) -> Seq<Seq<char>>
    decreases s.len(),
{
    if s.len() == 0 {
        seq![Seq::<char>::empty()]
    } else {
        let init = split(s.drop_last(), sep);
        if s.last() == sep {
            init.push(Seq::<char>::empty())
        } else {
            init.update(init.len() - 1, init.last().push(s.last()))
        }
    }
}

/// The first index at or after `from` at which `c` occurs in `s`.
pub open spec fn find_char_from(s: Seq<char>, c: char, from: int) -> Option<int>
    decreases s.len() - from,
{
    if from < 0 || from >= s.len() {
        None
    } else if s[from] == c {
        Some(from)
    } else {
        find_char_from(s, c, from + 1)
    }
}

/// The first index at which `c` occurs in `s`.
pub open spec fn find_char(s: Seq<char>, c: char) -> Option<int> {
    find_char_from(s, c, 0)
}

/// The last index at which `c` occurs in `s`.
pub open spec fn rfind_char(s: Seq<char>, c: char) -> Option<int>
    decreases s.len(),
{
    if s.len() == 0 {
        None
    } else if s.last() == c {
        Some(s.len() - 1)
    } else {
        rfind_char(s.drop_last(), c)
    }
}

/// `s` begins with `prefix`.
pub open spec fn starts_with(s: Seq<char>, prefix: Seq<char>) -> bool {
    prefix.len() <= s.len() && s.subrange(0, prefix.len() as int) == prefix
}

/// `s` ends with `suffix`.
pub open spec fn ends_with(s: Seq<char>, suffix: Seq<char>) -> bool {
    suffix.len() <= s.len() && s.subrange(s.len() - suffix.len(), s.len() as int) == suffix
}

pub proof fn lemma_split_nonempty(s: Seq<char>, sep: char)
    ensures
        split(s, sep).len() >= 1,
    decreases s.len(),
{
    if s.len() > 0 {
        lemma_split_nonempty(s.drop_last(), sep);
    }
}

/// Text without the separator is a single piece.
pub proof fn lemma_split_without_separator(s: Seq<char>, sep: char)
    requires
        forall|i: int| 0 <= i < s.len() ==> s[i] != sep,
    ensures
        split(s, sep) == seq![s],
    decreases s.len(),
{
    if s.len() > 0 {
        lemma_split_without_separator(s.drop_last(), sep);
        assert(s.drop_last().push(s.last()) =~= s);
        assert(seq![s.drop_last()].update(0, s.drop_last().push(s.last())) =~= seq![s]);
    } else {
        assert(s =~= Seq::<char>::empty());
    }
}

/// Every character of `s` other than the separator stands in one of its pieces.
pub proof fn lemma_split_keeps_characters(s: Seq<char>, sep: char, p: int)
    requires
        0 <= p < s.len(),
        s[p] != sep,
    ensures
        exists|k: int, j: int|
            0 <= k < split(s, sep).len() && 0 <= j < split(s, sep)[k].len() && #[trigger] split(
                s,
                sep,
            )[k][j] == s[p],
    decreases s.len(),
{
    let init = split(s.drop_last(), sep);
    lemma_split_nonempty(s.drop_last(), sep);
    if p < s.len() - 1 {
        lemma_split_keeps_characters(s.drop_last(), sep, p);
        let (k, j) = choose|k: int, j: int|
            0 <= k < init.len() && 0 <= j < init[k].len() && #[trigger] init[k][j] == s.drop_last()[p];
        if s.last() == sep {
            assert(split(s, sep)[k] == init[k]);
        } else {
            assert(split(s, sep)[k][j] == init[k][j]);
        }
    } else {
        let k = init.len() - 1;
        let j = init.last().len() as int;
        assert(split(s, sep)[k][j] == s[p]);
    }
}

/// A longer run of decimal digits never denotes a smaller number than its prefix.
pub proof fn lemma_decimal_prefix_le(s: Seq<char>, k: int)
    requires
        0 <= k <= s.len(),
    ensures
        decimal_value(s.subrange(0, k)) <= decimal_value(s),
    decreases s.len() - k,
{
    if k < s.len() {
        lemma_decimal_prefix_le(s, k + 1);
        assert(s.subrange(0, k + 1).drop_last() =~= s.subrange(0, k));
    } else {
        assert(s.subrange(0, k) =~= s);
    }
}

pub proof fn lemma_find_char_from(s: Seq<char>, c: char, from: int)
    ensures
        match find_char_from(s, c, from) {
            Some(k) => from <= k < s.len() && s[k] == c && 0 <= from,
            None => true,
        },
    decreases s.len() - from,
{
    if 0 <= from < s.len() && s[from] != c {
        lemma_find_char_from(s, c, from + 1);
    }
}

pub proof fn lemma_rfind_char(s: Seq<char>, c: char)
    ensures
        match rfind_char(s, c) {
            Some(k) => 0 <= k < s.len() && s[k] == c,
            None => true,
        },
    decreases s.len(),
{
    if s.len() > 0 && s.last() != c {
        lemma_rfind_char(s.drop_last(), c);
    }
}

/// The characters of `s`, as a vector.
pub fn chars_of(s: &str) -> (v: Vec<char>)
    ensures
        v@ == s@,
{
    let n = s.unicode_len();
    let mut v: Vec<char> = Vec::new();
    for i in 0..n
        invariant
            n == s@.len(),
            v@ == s@.subrange(0, i as int),
    {
        v.push(s.get_char(i));
        assert(v@ =~= s@.subrange(0, i + 1));
    }
    assert(v@ =~= s@);
    v
}

/// Whether two strings hold the same characters.
pub fn str_eq(a: &str, b: &str) -> (r: bool)
    ensures
        r == (a@ == b@),
{
    let n = a.unicode_len();
    let m = b.unicode_len();
    if n != m {
        return false;
    }
    for i in 0..n
        invariant
            n == a@.len(),
            m == b@.len(),
            n == m,
            forall|j: int| 0 <= j < i ==> a@[j] == b@[j],
    {
        if a.get_char(i) != b.get_char(i) {
            return false;
        }
    }
    assert(a@ =~= b@);
    true
}

/// The first index in `lo..hi` at which `c` occurs in `s`.
pub fn find_in_range(s: &Vec<char>, lo: usize, hi: usize, c: char) -> (r: Option<usize>)
    requires
        lo <= hi <= s.len(),
    ensures
        match find_char(s@.subrange(lo as int, hi as int), c) {
            Some(k) => 0 <= k < hi - lo && r == Some((lo + k) as usize),
            None => r is None,
        },
        r matches Some(i) ==> lo <= i < hi && s@[i as int] == c,
{
    proof {
        lemma_find_char_from(s@.subrange(lo as int, hi as int), c, 0);
    }
    let ghost sub = s@.subrange(lo as int, hi as int);
    let mut i = lo;
    while i < hi
        invariant
            lo <= i <= hi <= s.len(),
            sub == s@.subrange(lo as int, hi as int),
            find_char(sub, c) == find_char_from(sub, c, i - lo),
        decreases hi - i,
    {
        if s[i] == c {
            return Some(i);
        }
        i = i + 1;
    }
    None
}

/// The last index in `lo..hi` at which `c` occurs in `s`.
pub fn rfind_in_range(s: &Vec<char>, lo: usize, hi: usize, c: char) -> (r: Option<usize>)
    requires
        lo <= hi <= s.len(),
    ensures
        match rfind_char(s@.subrange(lo as int, hi as int), c) {
            Some(k) => 0 <= k < hi - lo && r == Some((lo + k) as usize),
            None => r is None,
        },
        r matches Some(i) ==> lo <= i < hi && s@[i as int] == c,
{
    proof {
        lemma_rfind_char(s@.subrange(lo as int, hi as int), c);
    }
    let mut i = hi;
    while i > lo
        invariant
            lo <= i <= hi <= s.len(),
            rfind_char(s@.subrange(lo as int, hi as int), c) == rfind_char(
                s@.subrange(lo as int, i as int),
                c,
            ),
        decreases i - lo,
    {
        assert(s@.subrange(lo as int, i as int).drop_last() =~= s@.subrange(
            lo as int,
            i - 1,
        ));
        if s[i - 1] == c {
            return Some(i - 1);
        }
        i = i - 1;
    }
    None
}

/// The ranges of the pieces of `s[lo..hi]` between occurrences of `sep`.
pub fn split_ranges(s: &Vec<char>, lo: usize, hi: usize, sep: char) -> (r: Vec<(usize, usize)>)
    requires
        lo <= hi <= s.len(),
    ensures
        r.len() == split(s@.subrange(lo as int, hi as int), sep).len(),
        r.len() >= 1,
        forall|k: int|
            0 <= k < r.len() ==> lo <= (#[trigger] r@[k]).0 <= r@[k].1 <= hi && s@.subrange(
                r@[k].0 as int,
                r@[k].1 as int,
            ) == split(s@.subrange(lo as int, hi as int), sep)[k],
{
    let mut done: Vec<(usize, usize)> = Vec::new();
    let mut start = lo;
    let mut i = lo;
    proof {
        assert(s@.subrange(lo as int, lo as int) =~= Seq::<char>::empty());
    }
    while i < hi
        invariant
            lo <= start <= i <= hi <= s.len(),
            done.len() + 1 == split(s@.subrange(lo as int, i as int), sep).len(),
            forall|k: int|
                0 <= k < done.len() ==> lo <= (#[trigger] done@[k]).0 <= done@[k].1 <= i
                    && s@.subrange(done@[k].0 as int, done@[k].1 as int) == split(
                    s@.subrange(lo as int, i as int),
                    sep,
                )[k],
            s@.subrange(start as int, i as int) == split(
                s@.subrange(lo as int, i as int),
                sep,
            ).last(),
        decreases hi - i,
    {
        let ghost before = split(s@.subrange(lo as int, i as int), sep);
        proof {
            lemma_split_nonempty(s@.subrange(lo as int, i as int), sep);
            assert(s@.subrange(lo as int, i + 1).drop_last() =~= s@.subrange(lo as int, i as int));
        }
        if s[i] == sep {
            done.push((start, i));
            start = i + 1;
            proof {
                assert(s@.subrange(start as int, i + 1) =~= Seq::<char>::empty());
            }
        } else {
            proof {
                assert(s@.subrange(start as int, i + 1) =~= s@.subrange(start as int, i as int).push(
                    s@[i as int],
                ));
            }
        }
        i = i + 1;
    }
    proof {
        lemma_split_nonempty(s@.subrange(lo as int, hi as int), sep);
    }
    done.push((start, hi));
    done
}

/// Reads `s[lo..hi]` as a run of decimal digits no greater than `max`.
pub fn parse_decimal(s: &Vec<char>, lo: usize, hi: usize, max: u32) -> (r: Option<u32>)
    requires
        lo <= hi <= s.len(),
    ensures
        ({
            let t = s@.subrange(lo as int, hi as int);
            r == if t.len() > 0 && all_dec_digits(t) && decimal_value(t) <= max {
                Some(decimal_value(t) as u32)
            } else {
                None::<u32>
            }
        }),
{
    let ghost t = s@.subrange(lo as int, hi as int);
    if lo == hi {
        return None;
    }
    let mut v: u64 = 0;
    let mut i = lo;
    proof {
        assert(t.subrange(0, 0) =~= Seq::<char>::empty());
    }
    while i < hi
        invariant
            lo < hi <= s.len(),
            lo <= i <= hi,
            t == s@.subrange(lo as int, hi as int),
            all_dec_digits(t.subrange(0, i - lo)),
            v == decimal_value(t.subrange(0, i - lo)),
            v <= max,
        decreases hi - i,
    {
        let c = s[i];
        proof {
            assert(t.subrange(0, i - lo + 1).drop_last() =~= t.subrange(0, i - lo));
            assert(t[i - lo] == c);
        }
        if !('0' <= c && c <= '9') {
            assert(!is_dec_digit(t[i - lo]));
            return None;
        }
        let d = (c as u32) - ('0' as u32);
        v = v * 10 + d as u64;
        proof {
            assert(all_dec_digits(t.subrange(0, i - lo + 1)));
        }
        if v > max as u64 {
            proof {
                lemma_decimal_prefix_le(t, i - lo + 1);
            }
            return None;
        }
        i = i + 1;
    }
    proof {
        assert(t.subrange(0, hi - lo) =~= t);
    }
    Some(v as u32)
}


/// The digit character of `d`, lowercase for the hex digits above 9.
pub open spec fn digit_char(d: nat) -> char {
    if d == 0 { '0' } else if d == 1 { '1' } else if d == 2 { '2' } else if d == 3 { '3' }
    else if d == 4 { '4' } else if d == 5 { '5' } else if d == 6 { '6' } else if d == 7 { '7' }
    else if d == 8 { '8' } else if d == 9 { '9' } else if d == 10 { 'a' } else if d == 11 { 'b' }
    else if d == 12 { 'c' } else if d == 13 { 'd' } else if d == 14 { 'e' } else { 'f' }
}

/// The digits of `n` in base `base` (10 or 16), most significant first, with
/// no leading zero.
pub open spec fn digits_text(n: nat, base: nat) -> Seq<char>
    decreases n,
{
    if base < 2 {
        Seq::empty()
    } else if n < base {
        seq![digit_char(n)]
    } else {
        proof {
            assert(n / base < n) by (nonlinear_arith)
                requires
                    n >= base,
                    base >= 2,
            ;
        }
        digits_text(n / base, base).push(digit_char(n % base))
    }
}

/// The digit characters are the digits, and stand for their values.
pub proof fn lemma_digit_char(d: nat)
    requires
        d < 16,
    ensures
        is_hex_digit(digit_char(d)),
        hex_digit_value(digit_char(d)) == d,
        d < 10 ==> is_dec_digit(digit_char(d)) && dec_digit_value(digit_char(d)) == d,
        d > 0 ==> digit_char(d) != '0',
{
}

/// The decimal text of `n`.
pub open spec fn dec_text(n: nat) -> Seq<char> {
    digits_text(n, 10)
}

/// The lowercase hexadecimal text of `n`.
pub open spec fn hex_text(n: nat) -> Seq<char> {
    digits_text(n, 16)
}

/// The decimal text of a number reads back as that number, without a leading
/// zero, and is short for small numbers.
pub proof fn lemma_dec_text(n: nat)
    ensures
        dec_text(n).len() >= 1,
        all_dec_digits(dec_text(n)),
        decimal_value(dec_text(n)) == n,
        n > 0 ==> dec_text(n)[0] != '0',
        n < 10 ==> dec_text(n).len() == 1,
        n < 100 ==> dec_text(n).len() <= 2,
        n < 1000 ==> dec_text(n).len() <= 3,
    decreases n,
{
    let t = dec_text(n);
    if n >= 10 {
        lemma_dec_text(n / 10);
        lemma_digit_char(n % 10);
        assert(t.drop_last() =~= dec_text(n / 10));
        assert(t[0] == dec_text(n / 10)[0]);
        assert(t.last() == digit_char(n % 10));
        assert(n == (n / 10) * 10 + n % 10);
        assert(decimal_value(t) == decimal_value(dec_text(n / 10)) * 10 + dec_digit_value(
            digit_char(n % 10),
        ));
        assert(all_dec_digits(t)) by {
            assert forall|i: int| 0 <= i < t.len() implies #[trigger] is_dec_digit(t[i]) by {
                if i < t.len() - 1 {
                    assert(t[i] == dec_text(n / 10)[i]);
                }
            }
        }
        assert(decimal_value(t) == n);
    } else {
        lemma_digit_char(n);
        assert(t.drop_last() =~= Seq::<char>::empty());
        assert(decimal_value(t.drop_last()) == 0);
        assert(decimal_value(t) == n);
    }
}

/// The hexadecimal text of a number reads back as that number, and has at
/// most four digits below 65536.
pub proof fn lemma_hex_text(n: nat)
    ensures
        hex_text(n).len() >= 1,
        all_hex_digits(hex_text(n)),
        hex_value(hex_text(n)) == n,
        n < 16 ==> hex_text(n).len() == 1,
        n < 256 ==> hex_text(n).len() <= 2,
        n < 4096 ==> hex_text(n).len() <= 3,
        n < 65536 ==> hex_text(n).len() <= 4,
    decreases n,
{
    let t = hex_text(n);
    if n >= 16 {
        lemma_hex_text(n / 16);
        lemma_digit_char(n % 16);
        assert(t.drop_last() =~= hex_text(n / 16));
        assert(t.last() == digit_char(n % 16));
        assert(n == (n / 16) * 16 + n % 16);
        assert(hex_value(t) == hex_value(hex_text(n / 16)) * 16 + hex_digit_value(
            digit_char(n % 16),
        ));
        assert(all_hex_digits(t)) by {
            assert forall|i: int| 0 <= i < t.len() implies #[trigger] is_hex_digit(t[i]) by {
                if i < t.len() - 1 {
                    assert(t[i] == hex_text(n / 16)[i]);
                }
            }
        }
        assert(hex_value(t) == n);
    } else {
        lemma_digit_char(n);
        assert(t.drop_last() =~= Seq::<char>::empty());
        assert(hex_value(t.drop_last()) == 0);
        assert(hex_value(t) == n);
    }
}

/// A text of digits holds no other character.
pub proof fn lemma_digits_text_chars(n: nat, base: nat, c: char)
    requires
        base == 10 || base == 16,
        !is_hex_digit(c),
    ensures
        forall|i: int| 0 <= i < digits_text(n, base).len() ==> digits_text(n, base)[i] != c,
    decreases n,
{
    if n >= base {
        lemma_digits_text_chars(n / base, base, c);
        assert forall|i: int| 0 <= i < digits_text(n, base).len() implies digits_text(n, base)[i]
            != c by {
            if i < digits_text(n, base).len() - 1 {
                assert(digits_text(n, base)[i] == digits_text(n / base, base)[i]);
            }
        }
    }
}

/// Splitting at a separator that joins two texts splits each of them.
pub proof fn lemma_split_concat(a: Seq<char>, b: Seq<char>, sep: char)
    ensures
        split(a + seq![sep] + b, sep) == split(a, sep) + split(b, sep),
    decreases b.len(),
{
    let c = a + seq![sep] + b;
    if b.len() == 0 {
        assert(c.drop_last() =~= a);
        assert(split(Seq::<char>::empty(), sep) =~= seq![Seq::<char>::empty()]);
        assert(split(a, sep).push(Seq::<char>::empty()) =~= split(a, sep) + split(b, sep));
    } else {
        lemma_split_concat(a, b.drop_last(), sep);
        lemma_split_nonempty(b.drop_last(), sep);
        assert(c.drop_last() =~= a + seq![sep] + b.drop_last());
        let x = split(a, sep);
        let y = split(b.drop_last(), sep);
        if b.last() == sep {
            assert((x + y).push(Seq::<char>::empty()) =~= x + y.push(Seq::<char>::empty()));
        } else {
            assert((x + y).update((x + y).len() - 1, (x + y).last().push(b.last())) =~= x
                + y.update(y.len() - 1, y.last().push(b.last())));
        }
    }
}

/// The first occurrence of `c` in `a + [c] + b`, when `a` holds no `c`.
pub proof fn lemma_find_char_after(a: Seq<char>, c: char, b: Seq<char>, from: int)
    requires
        0 <= from <= a.len(),
        forall|i: int| 0 <= i < a.len() ==> a[i] != c,
    ensures
        find_char_from(a + seq![c] + b, c, from) == Some(a.len() as int),
    decreases a.len() - from,
{
    if from < a.len() {
        lemma_find_char_after(a, c, b, from + 1);
    }
}

/// A text without `c` has no occurrence of `c`.
pub proof fn lemma_find_char_absent(s: Seq<char>, c: char, from: int)
    requires
        forall|i: int| 0 <= i < s.len() ==> s[i] != c,
    ensures
        find_char_from(s, c, from) is None,
    decreases s.len() - from,
{
    if 0 <= from < s.len() {
        lemma_find_char_absent(s, c, from + 1);
    }
}

/// The last occurrence of `c` in `a + [c] + b`, when `b` holds no `c`.
pub proof fn lemma_rfind_char_before(a: Seq<char>, c: char, b: Seq<char>)
    requires
        forall|i: int| 0 <= i < b.len() ==> b[i] != c,
    ensures
        rfind_char(a + seq![c] + b, c) == Some(a.len() as int),
    decreases b.len(),
{
    if b.len() > 0 {
        assert((a + seq![c] + b).drop_last() =~= a + seq![c] + b.drop_last());
        lemma_rfind_char_before(a, c, b.drop_last());
    } else {
        assert(a + seq![c] + b =~= a.push(c));
        assert((a + seq![c] + b).last() == c);
    }
}

/// The one-character text of the digit `d`.
fn digit_str(d: u64) -> (r: &'static str)
    requires
        d < 16,
    ensures
        r@ == seq![digit_char(d as nat)],
{
    match d {
        0 => { proof { reveal_strlit("0"); } "0" },
        1 => { proof { reveal_strlit("1"); } "1" },
        2 => { proof { reveal_strlit("2"); } "2" },
        3 => { proof { reveal_strlit("3"); } "3" },
        4 => { proof { reveal_strlit("4"); } "4" },
        5 => { proof { reveal_strlit("5"); } "5" },
        6 => { proof { reveal_strlit("6"); } "6" },
        7 => { proof { reveal_strlit("7"); } "7" },
        8 => { proof { reveal_strlit("8"); } "8" },
        9 => { proof { reveal_strlit("9"); } "9" },
        10 => { proof { reveal_strlit("a"); } "a" },
        11 => { proof { reveal_strlit("b"); } "b" },
        12 => { proof { reveal_strlit("c"); } "c" },
        13 => { proof { reveal_strlit("d"); } "d" },
        14 => { proof { reveal_strlit("e"); } "e" },
        _ => { proof { reveal_strlit("f"); } "f" },
    }
}

/// Appends the digits of `n` in base `base` (10 or 16) to `out`.
pub fn push_digits(out: &mut String, n: u64, base: u64)
    requires
        base == 10 || base == 16,
    ensures
        final(out)@ == old(out)@ + digits_text(n as nat, base as nat),
    decreases n,
{
    if n >= base {
        push_digits(out, n / base, base);
    }
    proof {
        if base == 10 {
            assert(n % base < 16);
        } else {
            assert(n % base < 16);
        }
    }
    out.append(digit_str(n % base));
    proof {
        if n >= base {
            assert(old(out)@ + digits_text(n as nat, base as nat) =~= old(out)@ + digits_text(
                (n / base) as nat,
                base as nat,
            ) + seq![digit_char((n % base) as nat)]);
        } else if base == 10 {
            assert(n % 10 == n);
        } else {
            assert(n % 16 == n);
        }
    }
}

/// Appends the text `t` to `out`.
pub fn push_str(out: &mut String, t: &str)
    ensures
        final(out)@ == old(out)@ + t@,
{
    out.append(t);
}

/// The text that std's `Debug` formatting writes for a string: the string
/// between double quotes, with quotes, backslashes and characters that are
/// not printable escaped.
pub uninterp spec fn debug_quoted(s: Seq<char>) -> Seq<char>;

/// A character that std's `Debug` formatting of a string writes as itself:
/// printable ASCII, from the space to `~`, other than `"` and `\`.
pub open spec fn is_plain_char(c: char) -> bool {
    ' ' <= c && c <= '~' && c != '"' && c != '\\'
}

/// Every character of `s` is written as itself by std's `Debug` formatting.
pub open spec fn all_plain(s: Seq<char>) -> bool {
    forall|i: int| 0 <= i < s.len() ==> #[trigger] is_plain_char(s[i])
}

/// Formats `s` with std's `Debug` formatting, `format!("{:?}", s)`. The
/// result is named `debug_quoted(s)`. The contract states what std documents
/// of printable ASCII (`char::escape_debug`, on which `Debug` for `str` is
/// built, escapes none of it but `"`, `\` and `'`, and a string's `Debug`
/// leaves `'` alone): text of such characters comes out between double
/// quotes, unchanged. How other characters are escaped is left unsaid.
#[verifier::external_body]
pub(crate) fn debug_quote(s: &str) -> (r: String)
    ensures
        r@ == debug_quoted(s@),
        all_plain(s@) ==> r@ == seq!['"'] + s@ + seq!['"'],
{
    format!("{:?}", s)
}

/// The text under which a string is logged: between double quotes as it is,
/// when std's `Debug` writes each of its characters as itself; else as std's
/// `Debug` quotes it.
pub open spec fn log_quoted(s: Seq<char>) -> Seq<char> {
    if all_plain(s) {
        seq!['"'] + s + seq!['"']
    } else {
        debug_quoted(s)
    }
}

/// Whether std's `Debug` writes every character of `s` as itself.
fn is_all_plain(s: &str) -> (r: bool)
    ensures
        r == all_plain(s@),
{
    let v = chars_of(s);
    let mut i: usize = 0;
    while i < v.len()
        invariant
            i <= v.len(),
            v@ == s@,
            forall|j: int| 0 <= j < i ==> #[trigger] is_plain_char(v@[j]),
        decreases v.len() - i,
    {
        let c = v[i];
        if !(' ' <= c && c <= '~' && c != '"' && c != '\\') {
            assert(!is_plain_char(s@[i as int]));
            return false;
        }
        i = i + 1;
    }
    true
}

/// `s` quoted as std's `Debug` quotes it; text that it writes as it is is
/// quoted here, the rest by std.
pub(crate) fn log_quote(s: &str) -> (r: String)
    ensures
        r@ == log_quoted(s@),
        r@ == debug_quoted(s@),
{
    let quoted = debug_quote(s);
    if is_all_plain(s) {
        proof {
            reveal_strlit("\"");
        }
        let mut out = String::new();
        push_str(&mut out, "\"");
        push_str(&mut out, s);
        push_str(&mut out, "\"");
        assert(out@ =~= seq!['"'] + s@ + seq!['"']);
        out
    } else {
        quoted
    }
}

/// Text that std's `Debug` writes as it is is logged between double quotes,
/// unchanged: letters keep their case, digits and punctuation stay.
pub proof fn lemma_plain_text_logged_as_is(s: Seq<char>)
    requires
        all_plain(s),
    ensures
        log_quoted(s).len() == s.len() + 2,
        log_quoted(s)[0] == '"',
        log_quoted(s)[s.len() as int + 1] == '"',
        forall|i: int| 0 <= i < s.len() ==> log_quoted(s)[i + 1] == s[i],
        log_quoted(s).subrange(1, s.len() as int + 1) == s,
{
    assert(log_quoted(s).subrange(1, s.len() as int + 1) =~= s);
}

} // verus!
