//! Character-level text utilities shared by the parsers and formatters.

use vstd::prelude::*;
use vstd::std_specs::iter::IteratorSpec;

verus! {

broadcast use vstd::string::group_string_axioms;

/// `String::push` from std: appends one character.
#[verifier::external_body]
pub(crate) fn push_char(s: &mut String, c: char)
    ensures
        final(s)@ == old(s)@.push(c),
{
    s.push(c);
}

/// The characters of `s`, in order.
pub fn chars_of(s: &str) -> (v: Vec<char>)
    ensures
        v@ == s@,
{
    let mut it = s.chars();
    let mut v: Vec<char> = Vec::new();
    loop
        invariant
            v@ + it.remaining() == s@,
            it.decrease() is Some,
        ensures
            v@ == s@,
        decreases it.decrease()->0,
    {
        match it.next() {
            Some(c) => {
                v.push(c);
            },
            None => {
                break ;
            },
        }
    }
    v
}

/// A `String` holding exactly the characters of `v`.
pub fn string_of(v: &Vec<char>) -> (s: String)
    ensures
        s@ == v@,
{
    let mut s = String::new();
    let mut i: usize = 0;
    while i < v.len()
        invariant
            i <= v.len(),
            s@ == v@.take(i as int),
        decreases v.len() - i,
    {
        push_char(&mut s, v[i]);
        assert(v@.take(i + 1) == v@.take(i as int).push(v@[i as int]));
        i = i + 1;
    }
    assert(v@.take(v.len() as int) == v@);
    s
}

/// The decimal digit character for `d` (`d < 10`).
pub open spec fn digit_char(d: nat) -> char {
    if d == 0 { '0' }
    else if d == 1 { '1' }
    else if d == 2 { '2' }
    else if d == 3 { '3' }
    else if d == 4 { '4' }
    else if d == 5 { '5' }
    else if d == 6 { '6' }
    else if d == 7 { '7' }
    else if d == 8 { '8' }
    else { '9' }
}

/// The decimal representation of `n`, without sign or leading zeros.
pub open spec fn decimal(n: nat) -> Seq<char>
    decreases n,
{
    if n < 10 {
        seq![digit_char(n)]
    } else {
        decimal(n / 10).push(digit_char(n % 10))
    }
}

fn digit_of(d: u64) -> (c: char)
    requires
        d < 10,
    ensures
        c == digit_char(d as nat),
{
    if d == 0 { '0' }
    else if d == 1 { '1' }
    else if d == 2 { '2' }
    else if d == 3 { '3' }
    else if d == 4 { '4' }
    else if d == 5 { '5' }
    else if d == 6 { '6' }
    else if d == 7 { '7' }
    else if d == 8 { '8' }
    else { '9' }
}

/// Appends the decimal representation of `n` to `s`.
pub fn push_decimal(s: &mut String, n: u64)
    ensures
        final(s)@ == old(s)@ + decimal(n as nat),
    decreases n,
{
    if n >= 10 {
        push_decimal(s, n / 10);
    }
    push_char(s, digit_of(n % 10));
}

/// The decimal representation of `n` as a `String`.
pub fn decimal_string(n: u64) -> (s: String)
    ensures
        s@ == decimal(n as nat),
{
    let mut s = String::new();
    push_decimal(&mut s, n);
    s
}


/// Unicode `White_Space`, the set that `char::is_whitespace` tests.
pub open spec fn is_ws(c: char) -> bool {
    let x = c as u32;
    ||| 0x9 <= x <= 0xd
    ||| x == 0x20
    ||| x == 0x85
    ||| x == 0xa0
    ||| x == 0x1680
    ||| 0x2000 <= x <= 0x200a
    ||| x == 0x2028
    ||| x == 0x2029
    ||| x == 0x202f
    ||| x == 0x205f
    ||| x == 0x3000
}

/// Whether `c` is white space.
pub fn is_whitespace(c: char) -> (b: bool)
    ensures
        b == is_ws(c),
{
    let x = c as u32;
    (0x9 <= x && x <= 0xd) || x == 0x20 || x == 0x85 || x == 0xa0 || x == 0x1680 || (0x2000 <= x
        && x <= 0x200a) || x == 0x2028 || x == 0x2029 || x == 0x202f || x == 0x205f || x == 0x3000
}

/// `s` without its leading white space.
pub open spec fn trim_start(s: Seq<char>) -> Seq<char>
    decreases s.len(),
{
    if s.len() > 0 && is_ws(s[0]) {
        trim_start(s.drop_first())
    } else {
        s
    }
}

/// `s` without its trailing white space.
pub open spec fn trim_end(s: Seq<char>) -> Seq<char>
    decreases s.len(),
{
    if s.len() > 0 && is_ws(s.last()) {
        trim_end(s.drop_last())
    } else {
        s
    }
}

/// `s` without leading and trailing white space, as `str::trim` gives it.
pub open spec fn trim(s: Seq<char>) -> Seq<char> {
    trim_end(trim_start(s))
}

/// The characters of `v` from `lo` up to `hi`.
pub fn slice_chars(v: &Vec<char>, lo: usize, hi: usize) -> (r: Vec<char>)
    requires
        lo <= hi <= v.len(),
    ensures
        r@ == v@.subrange(lo as int, hi as int),
{
    let mut r: Vec<char> = Vec::new();
    let mut i = lo;
    while i < hi
        invariant
            lo <= i <= hi <= v.len(),
            r@ == v@.subrange(lo as int, i as int),
        decreases hi - i,
    {
        r.push(v[i]);
        assert(v@.subrange(lo as int, i + 1) == v@.subrange(lo as int, i as int).push(v@[i as int]));
        i = i + 1;
    }
    r
}

/// `v` without leading and trailing white space.
pub fn trim_chars(v: &Vec<char>) -> (r: Vec<char>)
    ensures
        r@ == trim(v@),
{
    let n = v.len();
    let mut i: usize = 0;
    assert(v@.subrange(0, n as int) == v@);
    while i < n && is_whitespace(v[i])
        invariant
            i <= n == v.len(),
            trim_start(v@) == trim_start(v@.subrange(i as int, n as int)),
        decreases n - i,
    {
        assert(v@.subrange(i as int, n as int).drop_first() == v@.subrange(i + 1, n as int));
        i = i + 1;
    }
    assert(trim_start(v@.subrange(i as int, n as int)) == v@.subrange(i as int, n as int));
    let mut j: usize = n;
    while j > i && is_whitespace(v[j - 1])
        invariant
            i <= j <= n == v.len(),
            trim(v@) == trim_end(v@.subrange(i as int, j as int)),
        decreases j,
    {
        assert(v@.subrange(i as int, j as int).drop_last() == v@.subrange(i as int, j - 1));
        j = j - 1;
    }
    slice_chars(v, i, j)
}

/// `s` without leading and trailing white space.
pub fn trim_str(s: &str) -> (r: String)
    ensures
        r@ == trim(s@),
{
    let v = chars_of(s);
    let t = trim_chars(&v);
    string_of(&t)
}

/// Whether `n` occurs in `h` starting at position `i`.
pub open spec fn occurs_at(h: Seq<char>, n: Seq<char>, i: int) -> bool {
    0 <= i && i + n.len() <= h.len() && h.subrange(i, i + n.len()) == n
}

/// Whether `n` occurs in `h` as a contiguous run (`str::contains`).
pub open spec fn contains_seq(h: Seq<char>, n: Seq<char>) -> bool {
    exists|i: int| occurs_at(h, n, i)
}

/// Whether `h` begins with `n`.
pub open spec fn starts_with_seq(h: Seq<char>, n: Seq<char>) -> bool {
    occurs_at(h, n, 0)
}

/// Whether `n` occurs in `h` at position `i`.
pub fn matches_at(h: &Vec<char>, n: &Vec<char>, i: usize) -> (b: bool)
    ensures
        b == occurs_at(h@, n@, i as int),
{
    if n.len() > h.len() || i > h.len() - n.len() {
        return false;
    }
    let mut k: usize = 0;
    while k < n.len()
        invariant
            i + n.len() <= h.len(),
            k <= n.len(),
            forall|m: int| 0 <= m < k ==> h@[i + m] == n@[m],
        decreases n.len() - k,
    {
        if h[i + k] != n[k] {
            assert(h@.subrange(i as int, i + n.len())[k as int] != n@[k as int]);
            return false;
        }
        k = k + 1;
    }
    assert(h@.subrange(i as int, i + n.len()) =~= n@);
    true
}

/// Whether `n` occurs anywhere in `h`.
pub fn contains(h: &Vec<char>, n: &Vec<char>) -> (b: bool)
    ensures
        b == contains_seq(h@, n@),
{
    if n.len() > h.len() {
        return false;
    }
    let last = h.len() - n.len();
    let mut i: usize = 0;
    loop
        invariant
            last + n.len() == h.len(),
            i <= last,
            forall|j: int| 0 <= j < i ==> !occurs_at(h@, n@, j),
        decreases last - i,
    {
        if matches_at(h, n, i) {
            return true;
        }
        if i == last {
            return false;
        }
        i = i + 1;
    }
}

/// Whether `h` begins with `n`.
pub fn starts_with(h: &Vec<char>, n: &Vec<char>) -> (b: bool)
    ensures
        b == starts_with_seq(h@, n@),
{
    matches_at(h, n, 0)
}

/// Whether `a` and `b` hold the same characters.
pub fn same_chars(a: &Vec<char>, b: &Vec<char>) -> (r: bool)
    ensures
        r == (a@ == b@),
{
    if a.len() != b.len() {
        return false;
    }
    let r = matches_at(a, b, 0);
    assert(a@.subrange(0, a@.len() as int) =~= a@);
    r
}

/// Whether `a` holds exactly the characters of `lit`.
pub fn equals_str(a: &Vec<char>, lit: &str) -> (r: bool)
    ensures
        r == (a@ == lit@),
{
    let b = chars_of(lit);
    same_chars(a, &b)
}

/// Whether `h` contains `lit`.
pub fn contains_str(h: &Vec<char>, lit: &str) -> (r: bool)
    ensures
        r == contains_seq(h@, lit@),
{
    let n = chars_of(lit);
    contains(h, &n)
}


/// The value of `c` as a digit in base `radix` (2 to 36), as `char::to_digit` reads it.
pub open spec fn digit_value(c: char, radix: nat) -> Option<nat> {
    let x = c as u32;
    let v: int = if 0x30 <= x <= 0x39 {
        x - 0x30
    } else if 0x61 <= x <= 0x7a {
        x - 0x61 + 10
    } else if 0x41 <= x <= 0x5a {
        x - 0x41 + 10
    } else {
        radix as int
    };
    if v < radix {
        Some(v as nat)
    } else {
        None
    }
}

/// Whether every character of `s` is a digit in base `radix`.
pub open spec fn all_digits(s: Seq<char>, radix: nat) -> bool {
    forall|i: int| 0 <= i < s.len() ==> (#[trigger] digit_value(s[i], radix)) is Some
}

/// The number that the digits `s` spell in base `radix`.
pub open spec fn digits_value(s: Seq<char>, radix: nat) -> nat
    decreases s.len(),
{
    if s.len() == 0 {
        0
    } else {
        digits_value(s.drop_last(), radix) * radix + digit_value(s.last(), radix)->0
    }
}

/// `s` without one leading `+`, if it has one.
pub open spec fn unsigned_digits(s: Seq<char>) -> Seq<char> {
    if s.len() > 0 && s[0] == '+' {
        s.drop_first()
    } else {
        s
    }
}

/// What `from_str_radix` (and `str::parse` in base 10) gives for an unsigned
/// type whose largest value is `max`: an optional `+`, then at least one digit,
/// and a value no larger than `max`.
pub open spec fn parse_unsigned(s: Seq<char>, radix: nat, max: nat) -> Option<nat> {
    let d = unsigned_digits(s);
    if d.len() > 0 && all_digits(d, radix) && digits_value(d, radix) <= max {
        Some(digits_value(d, radix))
    } else {
        None
    }
}

proof fn lemma_digits_value_grows(s: Seq<char>, k: int, radix: nat)
    requires
        0 <= k <= s.len(),
        radix >= 2,
        all_digits(s, radix),
    ensures
        digits_value(s.take(k), radix) <= digits_value(s, radix),
    decreases s.len() - k,
{
    if k < s.len() {
        lemma_digits_value_grows(s, k + 1, radix);
        let t = s.take(k + 1);
        assert(t.drop_last() == s.take(k));
        let a = digits_value(s.take(k), radix);
        assert(digit_value(t.last(), radix) is Some) by {
            assert(t.last() == s[k]);
        }
        assert(a <= a * radix) by (nonlinear_arith)
            requires
                radix >= 2,
        ;
    } else {
        assert(s.take(k) == s);
    }
}

proof fn lemma_div_compare(a: int, r: int, x: int)
    requires
        r > 0,
        x >= 0,
        a >= 0,
    ensures
        a > x / r ==> a * r > x,
        a <= x / r ==> a * r <= x,
{
    vstd::arithmetic::div_mod::lemma_fundamental_div_mod(x, r);
    let q = x / r;
    assert(0 <= x % r < r) by {
        vstd::arithmetic::div_mod::lemma_mod_bound(x, r);
    }
    if a > q {
        assert(a * r >= (q + 1) * r) by (nonlinear_arith)
            requires
                a >= q + 1,
                r > 0,
        ;
        assert((q + 1) * r == r * q + r) by (nonlinear_arith);
    } else {
        assert(a * r <= q * r) by (nonlinear_arith)
            requires
                a <= q,
                r > 0,
        ;
        assert(q * r == r * q) by (nonlinear_arith);
    }
}

fn digit_of_char(c: char, radix: u32) -> (r: Option<u32>)
    requires
        2 <= radix <= 36,
    ensures
        match digit_value(c, radix as nat) {
            Some(v) => r == Some(v as u32),
            None => r is None,
        },
{
    let x = c as u32;
    let v: u32 = if 0x30 <= x && x <= 0x39 {
        x - 0x30
    } else if 0x61 <= x && x <= 0x7a {
        x - 0x61 + 10
    } else if 0x41 <= x && x <= 0x5a {
        x - 0x41 + 10
    } else {
        radix
    };
    if v < radix {
        Some(v)
    } else {
        None
    }
}

/// Parses `v` as an unsigned number in base `radix` no larger than `max`.
pub fn parse_radix(v: &Vec<char>, radix: u32, max: u64) -> (r: Option<u64>)
    requires
        2 <= radix <= 36,
    ensures
        match parse_unsigned(v@, radix as nat, max as nat) {
            Some(n) => r == Some(n as u64),
            None => r is None,
        },
{
    let start: usize = if v.len() > 0 && v[0] == '+' { 1 } else { 0 };
    let ghost d = unsigned_digits(v@);
    assert(d == v@.subrange(start as int, v@.len() as int));
    if start == v.len() {
        return None;
    }
    let mut acc: u64 = 0;
    let mut i: usize = start;
    while i < v.len()
        invariant
            start <= i <= v.len(),
            d == v@.subrange(start as int, v@.len() as int),
            d == unsigned_digits(v@),
            2 <= radix <= 36,
            all_digits(d.take(i - start), radix as nat),
            acc as nat == digits_value(d.take(i - start), radix as nat),
            acc <= max,
        decreases v.len() - i,
    {
        let k = i - start;
        assert(d.take(k + 1).drop_last() == d.take(k as int));
        assert(d.take(k + 1).last() == v@[i as int]);
        match digit_of_char(v[i], radix) {
            None => {
                assert(d[k as int] == v@[i as int]);
                assert(digit_value(d[k as int], radix as nat) is None);
                assert(!all_digits(d, radix as nat));
                return None;
            },
            Some(dv) => {
                let r64 = radix as u64;
                let d64 = dv as u64;
                assert(digits_value(d.take(k + 1), radix as nat) == acc * r64 + d64);
                assert(all_digits(d.take(k + 1), radix as nat)) by {
                    assert forall|j: int| 0 <= j < k + 1 implies (#[trigger] digit_value(
                        d.take(k + 1)[j],
                        radix as nat,
                    )) is Some by {
                        if j < k {
                            assert(d.take(k + 1)[j] == d.take(k as int)[j]);
                        }
                    }
                }
                if d64 > max {
                    proof {
                        if all_digits(d, radix as nat) {
                            lemma_digits_value_grows(d, k + 1, radix as nat);
                        }
                        assert(acc * r64 >= 0) by (nonlinear_arith)
                            requires
                                acc >= 0,
                                r64 >= 0,
                        ;
                    }
                    return None;
                }
                let q = (max - d64) / r64;
                proof {
                    lemma_div_compare(acc as int, r64 as int, (max - d64) as int);
                }
                if acc > q {
                    proof {
                        if all_digits(d, radix as nat) {
                            lemma_digits_value_grows(d, k + 1, radix as nat);
                        }
                    }
                    return None;
                }
                acc = acc * r64 + d64;
            },
        }
        i = i + 1;
    }
    assert(d.take(v.len() - start) == d);
    Some(acc)
}

/// The fields of `s` separated by white space, as `str::split_whitespace`
/// yields them: the fields found so far and the field being read.
pub open spec fn fields_scan(s: Seq<char>) -> (Seq<Seq<char>>, Seq<char>)
    decreases s.len(),
{
    if s.len() == 0 {
        (seq![], seq![])
    } else {
        let (done, cur) = fields_scan(s.drop_last());
        if is_ws(s.last()) {
            if cur.len() > 0 {
                (done.push(cur), seq![])
            } else {
                (done, cur)
            }
        } else {
            (done, cur.push(s.last()))
        }
    }
}

/// The white-space separated fields of `s`.
pub open spec fn ws_fields(s: Seq<char>) -> Seq<Seq<char>> {
    let (done, cur) = fields_scan(s);
    if cur.len() > 0 {
        done.push(cur)
    } else {
        done
    }
}

/// The lines of `s` as `str::lines` yields them: split at `\n`, with one `\r`
/// removed before each `\n`; the lines found so far and the line being read.
pub open spec fn lines_scan(s: Seq<char>) -> (Seq<Seq<char>>, Seq<char>)
    decreases s.len(),
{
    if s.len() == 0 {
        (seq![], seq![])
    } else {
        let (done, cur) = lines_scan(s.drop_last());
        if s.last() == '\n' {
            (done.push(strip_cr(cur)), seq![])
        } else {
            (done, cur.push(s.last()))
        }
    }
}

/// `s` without one trailing `\r`.
pub open spec fn strip_cr(s: Seq<char>) -> Seq<char> {
    if s.len() > 0 && s.last() == '\r' {
        s.drop_last()
    } else {
        s
    }
}

/// The lines of `s`.
pub open spec fn lines_of(s: Seq<char>) -> Seq<Seq<char>> {
    let (done, cur) = lines_scan(s);
    if cur.len() > 0 {
        done.push(cur)
    } else {
        done
    }
}

/// The views of a sequence of character vectors.
pub open spec fn views(s: Seq<Vec<char>>) -> Seq<Seq<char>> {
    s.map_values(|v: Vec<char>| v@)
}

proof fn lemma_views_push(s: Seq<Vec<char>>, v: Vec<char>)
    ensures
        views(s.push(v)) == views(s).push(v@),
{
    assert(views(s.push(v)) =~= views(s).push(v@));
}

/// The white-space separated fields of `v`.
pub fn split_whitespace(v: &Vec<char>) -> (r: Vec<Vec<char>>)
    ensures
        views(r@) == ws_fields(v@),
{
    let mut done: Vec<Vec<char>> = Vec::new();
    let mut cur: Vec<char> = Vec::new();
    let mut i: usize = 0;
    while i < v.len()
        invariant
            i <= v.len(),
            (views(done@), cur@) == fields_scan(v@.take(i as int)),
        decreases v.len() - i,
    {
        let c = v[i];
        assert(v@.take(i + 1).drop_last() == v@.take(i as int));
        if is_whitespace(c) {
            if cur.len() > 0 {
                proof {
                    lemma_views_push(done@, cur);
                }
                done.push(cur);
                cur = Vec::new();
            }
        } else {
            cur.push(c);
        }
        i = i + 1;
    }
    assert(v@.take(v.len() as int) == v@);
    if cur.len() > 0 {
        proof {
            lemma_views_push(done@, cur);
        }
        done.push(cur);
    }
    done
}

fn strip_cr_chars(v: Vec<char>) -> (r: Vec<char>)
    ensures
        r@ == strip_cr(v@),
{
    let mut v = v;
    if v.len() > 0 && v[v.len() - 1] == '\r' {
        v.pop();
    }
    v
}

/// The lines of `v`.
pub fn split_lines(v: &Vec<char>) -> (r: Vec<Vec<char>>)
    ensures
        views(r@) == lines_of(v@),
{
    let mut done: Vec<Vec<char>> = Vec::new();
    let mut cur: Vec<char> = Vec::new();
    let mut i: usize = 0;
    while i < v.len()
        invariant
            i <= v.len(),
            (views(done@), cur@) == lines_scan(v@.take(i as int)),
        decreases v.len() - i,
    {
        let c = v[i];
        assert(v@.take(i + 1).drop_last() == v@.take(i as int));
        if c == '\n' {
            let line = strip_cr_chars(cur);
            proof {
                lemma_views_push(done@, line);
            }
            done.push(line);
            cur = Vec::new();
        } else {
            cur.push(c);
        }
        i = i + 1;
    }
    assert(v@.take(v.len() as int) == v@);
    if cur.len() > 0 {
        proof {
            lemma_views_push(done@, cur);
        }
        done.push(cur);
    }
    done
}

/// What `str::to_lowercase` gives for the characters `s`.
pub uninterp spec fn lowercased(s: Seq<char>) -> Seq<char>;

/// Whether every character of `s` is ASCII.
pub open spec fn is_ascii_text(s: Seq<char>) -> bool {
    forall|i: int| 0 <= i < s.len() ==> (#[trigger] s[i] as u32) < 128
}

/// The ASCII lower-case of `c`: `A`-`Z` become `a`-`z`, others stay.
pub open spec fn ascii_lower(c: char) -> char {
    if 'A' <= c && c <= 'Z' {
        ((c as u32) + 32) as char
    } else {
        c
    }
}

/// The lower-case text of `s`: for ASCII text, each letter lowered; for
/// other text, what `str::to_lowercase` gives.
pub open spec fn lower_text(s: Seq<char>) -> Seq<char> {
    if is_ascii_text(s) {
        s.map_values(|c: char| ascii_lower(c))
    } else {
        lowercased(s)
    }
}

/// `str::to_lowercase` from std: the Unicode lower-case mapping of `s`.
/// Its result is taken to depend on the characters of `s` alone and is
/// named `lowercased`; of the mapping only its ASCII part is stated (the
/// Unicode lower-case of an ASCII letter is the ASCII lower-case letter, and
/// other ASCII characters map to themselves).
#[verifier::external_body]
pub(crate) fn to_lowercase(s: &str) -> (r: String)
    ensures
        r@ == lowercased(s@),
        is_ascii_text(s@) ==> r@ == s@.map_values(|c: char| ascii_lower(c)),
{
    s.to_lowercase()
}

/// The lower-case hexadecimal digit for `d` (`d < 16`).
pub open spec fn hex_char(d: nat) -> char {
    if d < 10 {
        digit_char(d)
    } else if d == 10 {
        'a'
    } else if d == 11 {
        'b'
    } else if d == 12 {
        'c'
    } else if d == 13 {
        'd'
    } else if d == 14 {
        'e'
    } else {
        'f'
    }
}

/// Two lower-case hexadecimal digits for `b`, as `format!("{:02x}", b)` writes them.
pub open spec fn hex2(b: u8) -> Seq<char> {
    seq![hex_char((b / 16) as nat), hex_char((b % 16) as nat)]
}

fn hex_of(d: u8) -> (c: char)
    requires
        d < 16,
    ensures
        c == hex_char(d as nat),
{
    if d < 10 {
        digit_of(d as u64)
    } else if d == 10 {
        'a'
    } else if d == 11 {
        'b'
    } else if d == 12 {
        'c'
    } else if d == 13 {
        'd'
    } else if d == 14 {
        'e'
    } else {
        'f'
    }
}

/// Appends `b` as two lower-case hexadecimal digits.
pub fn push_hex2(s: &mut String, b: u8)
    ensures
        final(s)@ == old(s)@ + hex2(b),
{
    push_char(s, hex_of(b / 16));
    push_char(s, hex_of(b % 16));
    assert(final(s)@ =~= old(s)@ + hex2(b));
}


/// The pieces of `s` between occurrences of `sep`, as `str::split` yields
/// them: the pieces found so far and the piece being read.
pub open spec fn split_scan(s: Seq<char>, sep: char) -> (Seq<Seq<char>>, Seq<char>)
    decreases s.len(),
{
    if s.len() == 0 {
        (seq![], seq![])
    } else {
        let (done, cur) = split_scan(s.drop_last(), sep);
        if s.last() == sep {
            (done.push(cur), seq![])
        } else {
            (done, cur.push(s.last()))
        }
    }
}

/// The pieces of `s` between occurrences of `sep` (at least one piece).
pub open spec fn split_pieces(s: Seq<char>, sep: char) -> Seq<Seq<char>> {
    let (done, cur) = split_scan(s, sep);
    done.push(cur)
}

/// The pieces of `v` between occurrences of `sep`.
pub fn split_char(v: &Vec<char>, sep: char) -> (r: Vec<Vec<char>>)
    ensures
        views(r@) == split_pieces(v@, sep),
{
    let mut done: Vec<Vec<char>> = Vec::new();
    let mut cur: Vec<char> = Vec::new();
    let mut i: usize = 0;
    while i < v.len()
        invariant
            i <= v.len(),
            (views(done@), cur@) == split_scan(v@.take(i as int), sep),
        decreases v.len() - i,
    {
        let c = v[i];
        assert(v@.take(i + 1).drop_last() == v@.take(i as int));
        if c == sep {
            proof {
                lemma_views_push(done@, cur);
            }
            done.push(cur);
            cur = Vec::new();
        } else {
            cur.push(c);
        }
        i = i + 1;
    }
    assert(v@.take(v.len() as int) == v@);
    proof {
        lemma_views_push(done@, cur);
    }
    done.push(cur);
    done
}


/// `decimal` writes numbers in base ten: its digits read back as `n`, and it
/// has no leading zero.
pub proof fn lemma_decimal_reads_back(n: nat)
    ensures
        all_digits(decimal(n), 10),
        digits_value(decimal(n), 10) == n,
        decimal(n).len() >= 1,
        n > 0 ==> decimal(n)[0] != '0',
    decreases n,
{
    if n < 10 {
        assert(digit_value(digit_char(n), 10) == Some(n));
        assert(decimal(n).drop_last() =~= Seq::<char>::empty());
        assert(digits_value(Seq::<char>::empty(), 10) == 0);
        assert(decimal(n).last() == digit_char(n));
        assert(digits_value(decimal(n), 10) == digits_value(decimal(n).drop_last(), 10) * 10
            + digit_value(decimal(n).last(), 10)->0);
    } else {
        lemma_decimal_reads_back(n / 10);
        let d = decimal(n / 10);
        let c = digit_char(n % 10);
        assert(digit_value(c, 10) == Some(n % 10));
        assert(decimal(n).drop_last() == d);
        assert forall|i: int| 0 <= i < decimal(n).len() implies (#[trigger] digit_value(
            decimal(n)[i],
            10,
        )) is Some by {
            if i < d.len() {
                assert(decimal(n)[i] == d[i]);
            }
        }
        assert(decimal(n)[0] == d[0]);
        assert(decimal(n).last() == c);
        assert(digits_value(decimal(n), 10) == digits_value(d, 10) * 10 + digit_value(c, 10)->0);
        assert((n / 10) * 10 + n % 10 == n);
    }
}

/// `hex2` writes a byte as two lower-case hexadecimal digits that read back
/// as the byte.
pub proof fn lemma_hex2_reads_back(b: u8)
    ensures
        hex2(b).len() == 2,
        all_digits(hex2(b), 16),
        digits_value(hex2(b), 16) == b,
        forall|i: int|
            0 <= i < 2 ==> ('0' <= #[trigger] hex2(b)[i] <= '9' || 'a' <= hex2(b)[i] <= 'f'),
{
    let h = hex2(b);
    let hi = (b / 16) as nat;
    let lo = (b % 16) as nat;
    assert(digit_value(hex_char(hi), 16) == Some(hi));
    assert(digit_value(hex_char(lo), 16) == Some(lo));
    assert(h.drop_last() =~= seq![hex_char(hi)]);
    assert(seq![hex_char(hi)].drop_last() =~= Seq::<char>::empty());
    assert(digits_value(Seq::<char>::empty(), 16) == 0);
    assert(digits_value(seq![hex_char(hi)], 16) == digits_value(Seq::<char>::empty(), 16) * 16 + hi);
    assert(h.last() == hex_char(lo));
    assert(digits_value(h, 16) == digits_value(seq![hex_char(hi)], 16) * 16 + lo);
    assert(hi * 16 + lo == b);
    assert forall|i: int| 0 <= i < h.len() implies (#[trigger] digit_value(h[i], 16)) is Some by {}
}

proof fn lemma_trim_start_cut(s: Seq<char>) -> (a: int)
    ensures
        0 <= a <= s.len(),
        trim_start(s) == s.skip(a),
        forall|k: int| 0 <= k < a ==> is_ws(#[trigger] s[k]),
        a < s.len() ==> !is_ws(s[a]),
    decreases s.len(),
{
    if s.len() > 0 && is_ws(s[0]) {
        let a0 = lemma_trim_start_cut(s.drop_first());
        assert(s.drop_first().skip(a0) =~= s.skip(a0 + 1));
        assert forall|k: int| 0 <= k < a0 + 1 implies is_ws(#[trigger] s[k]) by {
            if k > 0 {
                assert(s[k] == s.drop_first()[k - 1]);
            }
        }
        a0 + 1
    } else {
        assert(s.skip(0) =~= s);
        0
    }
}

proof fn lemma_trim_end_cut(s: Seq<char>) -> (b: int)
    ensures
        0 <= b <= s.len(),
        trim_end(s) == s.take(b),
        forall|k: int| b <= k < s.len() ==> is_ws(#[trigger] s[k]),
        b > 0 ==> !is_ws(s[b - 1]),
    decreases s.len(),
{
    if s.len() > 0 && is_ws(s.last()) {
        let b0 = lemma_trim_end_cut(s.drop_last());
        assert(s.drop_last().take(b0) =~= s.take(b0));
        assert forall|k: int| b0 <= k < s.len() implies is_ws(#[trigger] s[k]) by {
            if k < s.len() - 1 {
                assert(s[k] == s.drop_last()[k]);
            }
        }
        b0
    } else {
        assert(s.take(s.len() as int) =~= s);
        s.len() as int
    }
}

/// Trimming removes exactly the white space at both ends: the result is the
/// part of `s` from `a` to `b`, everything before `a` and from `b` on is
/// white space, and the result neither starts nor ends with white space.
pub proof fn lemma_trim_cuts_white_space(s: Seq<char>)
    ensures
        exists|a: int, b: int|
            #![trigger s.subrange(a, b)]
            0 <= a <= b <= s.len() && trim(s) == s.subrange(a, b) && (forall|k: int|
                0 <= k < a ==> is_ws(#[trigger] s[k])) && (forall|k: int|
                b <= k < s.len() ==> is_ws(#[trigger] s[k])),
        trim(s).len() > 0 ==> !is_ws(trim(s)[0]) && !is_ws(trim(s).last()),
{
    let a = lemma_trim_start_cut(s);
    let t = s.skip(a);
    let b0 = lemma_trim_end_cut(t);
    assert(trim(s) == t.take(b0));
    assert(t.take(b0) =~= s.subrange(a, a + b0));
    assert forall|k: int| a + b0 <= k < s.len() implies is_ws(#[trigger] s[k]) by {
        assert(s[k] == t[k - a]);
    }
    assert(s.subrange(a, a + b0) == trim(s));
    if trim(s).len() > 0 {
        assert(trim(s)[0] == t[0]);
        assert(t[0] == s[a]);
        if a == s.len() {
            assert(false);
        }
        assert(trim(s).last() == t[b0 - 1]);
    }
}

/// White space is exactly Unicode `White_Space`: tab, line feed, vertical
/// tab, form feed, carriage return, space, U+0085, U+00A0, U+1680,
/// U+2000 to U+200A, U+2028, U+2029, U+202F, U+205F and U+3000.
pub proof fn lemma_white_space_set(c: char)
    ensures
        is_ws(c) <==> (c == '\t' || c == '\n' || c == '\u{0B}' || c == '\u{0C}' || c == '\r'
            || c == ' ' || c == '\u{85}' || c == '\u{A0}' || c == '\u{1680}' || ('\u{2000}' <= c
            && c <= '\u{200A}') || c == '\u{2028}' || c == '\u{2029}' || c == '\u{202F}' || c
            == '\u{205F}' || c == '\u{3000}'),
{
}

proof fn lemma_fields_scan_clean(s: Seq<char>)
    ensures
        ({
            let (done, cur) = fields_scan(s);
            &&& forall|k: int| 0 <= k < done.len() ==> (#[trigger] done[k]).len() > 0 && forall|j: int|
                0 <= j < done[k].len() ==> !is_ws(#[trigger] done[k][j])
            &&& forall|j: int| 0 <= j < cur.len() ==> !is_ws(#[trigger] cur[j])
            &&& (s.len() > 0 && !is_ws(s.last())) ==> cur.len() > 0 && cur.last() == s.last()
        }),
    decreases s.len(),
{
    if s.len() > 0 {
        lemma_fields_scan_clean(s.drop_last());
        let (done, cur) = fields_scan(s.drop_last());
        if !is_ws(s.last()) {
            let c2 = cur.push(s.last());
            assert forall|j: int| 0 <= j < c2.len() implies !is_ws(#[trigger] c2[j]) by {
                if j < cur.len() {
                    assert(c2[j] == cur[j]);
                }
            }
        } else if cur.len() > 0 {
            let d2 = done.push(cur);
            assert forall|k: int| 0 <= k < d2.len() implies (#[trigger] d2[k]).len() > 0 && forall|j: int|
                0 <= j < d2[k].len() ==> !is_ws(#[trigger] d2[k][j]) by {
                if k < done.len() {
                    assert(d2[k] == done[k]);
                }
            }
        }
    }
}

/// Splitting at white space gives non-empty fields that hold no white space.
pub proof fn lemma_fields_hold_no_white_space(s: Seq<char>)
    ensures
        forall|k: int|
            0 <= k < ws_fields(s).len() ==> (#[trigger] ws_fields(s)[k]).len() > 0 && forall|j: int|
                0 <= j < ws_fields(s)[k].len() ==> !is_ws(#[trigger] ws_fields(s)[k][j]),
{
    lemma_fields_scan_clean(s);
    let (done, cur) = fields_scan(s);
    if cur.len() > 0 {
        let f = done.push(cur);
        assert forall|k: int| 0 <= k < f.len() implies (#[trigger] f[k]).len() > 0 && forall|j: int|
            0 <= j < f[k].len() ==> !is_ws(#[trigger] f[k][j]) by {
            if k < done.len() {
                assert(f[k] == done[k]);
            }
        }
    }
}

proof fn lemma_lines_scan_clean(s: Seq<char>)
    ensures
        ({
            let (done, cur) = lines_scan(s);
            &&& forall|k: int| 0 <= k < done.len() ==> forall|j: int|
                0 <= j < (#[trigger] done[k]).len() ==> #[trigger] done[k][j] != '\n'
            &&& forall|j: int| 0 <= j < cur.len() ==> #[trigger] cur[j] != '\n'
        }),
    decreases s.len(),
{
    if s.len() > 0 {
        lemma_lines_scan_clean(s.drop_last());
        let (done, cur) = lines_scan(s.drop_last());
        if s.last() == '\n' {
            let d2 = done.push(strip_cr(cur));
            assert forall|k: int| 0 <= k < d2.len() implies forall|j: int|
                0 <= j < (#[trigger] d2[k]).len() ==> #[trigger] d2[k][j] != '\n' by {
                if k < done.len() {
                    assert(d2[k] == done[k]);
                } else {
                    assert forall|j: int| 0 <= j < d2[k].len() implies #[trigger] d2[k][j] != '\n' by {
                        assert(d2[k][j] == cur[j]);
                    }
                }
            }
        } else {
            let c2 = cur.push(s.last());
            assert forall|j: int| 0 <= j < c2.len() implies #[trigger] c2[j] != '\n' by {
                if j < cur.len() {
                    assert(c2[j] == cur[j]);
                }
            }
        }
    }
}

/// No line holds a line feed: the text is split at every `\n`.
pub proof fn lemma_lines_hold_no_line_feed(s: Seq<char>)
    ensures
        forall|k: int|
            0 <= k < lines_of(s).len() ==> forall|j: int|
                0 <= j < (#[trigger] lines_of(s)[k]).len() ==> #[trigger] lines_of(s)[k][j] != '\n',
{
    lemma_lines_scan_clean(s);
    let (done, cur) = lines_scan(s);
    if cur.len() > 0 {
        let f = done.push(cur);
        assert forall|k: int| 0 <= k < f.len() implies forall|j: int|
            0 <= j < (#[trigger] f[k]).len() ==> #[trigger] f[k][j] != '\n' by {
            if k < done.len() {
                assert(f[k] == done[k]);
            }
        }
    }
}

/// Parsing reads back what `decimal` writes, with or without a leading `+`:
/// a value up to the type's largest value `max` parses to itself, a larger
/// one to nothing; the empty text and a lone `+` parse to nothing.
pub proof fn lemma_parse_reads_decimal(n: nat, max: nat)
    ensures
        parse_unsigned(decimal(n), 10, max) == if n <= max {
            Some(n)
        } else {
            None::<nat>
        },
        parse_unsigned(seq!['+'] + decimal(n), 10, max) == if n <= max {
            Some(n)
        } else {
            None::<nat>
        },
        parse_unsigned(Seq::<char>::empty(), 10, max) is None,
        parse_unsigned(seq!['+'], 10, max) is None,
{
    lemma_decimal_reads_back(n);
    let d = decimal(n);
    assert(digit_value(d[0], 10) is Some);
    assert(d[0] != '+');
    assert(unsigned_digits(d) == d);
    assert((seq!['+'] + d)[0] == '+');
    assert((seq!['+'] + d).drop_first() =~= d);
    assert(seq!['+'].drop_first() =~= Seq::<char>::empty());
}
} // verus!
