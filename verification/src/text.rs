//! String primitives shared by the stores: whitespace trimming,
//! lexicographic comparison, decimal formatting and parsing, and
//! substring search. Everything here is pure character logic.
use vstd::prelude::*;

verus! {

/// A character with the Unicode `White_Space` property, the set that
/// `str::trim` removes.
pub open spec fn is_space_char(c: char) -> bool {
    let u = c as u32;
    u == 0x20 || u == 0x09 || u == 0x0A || u == 0x0B || u == 0x0C || u == 0x0D || u == 0x85
        || u == 0xA0 || u == 0x1680 || (0x2000 <= u && u <= 0x200A) || u == 0x2028 || u == 0x2029
        || u == 0x202F || u == 0x205F || u == 0x3000
}

/// Runtime test for `is_space_char`.
pub fn is_space(c: char) -> (r: bool)
    ensures
        r == is_space_char(c),
{
    let u = c as u32;
    u == 0x20 || u == 0x09 || u == 0x0A || u == 0x0B || u == 0x0C || u == 0x0D || u == 0x85
        || u == 0xA0 || u == 0x1680 || (0x2000 <= u && u <= 0x200A) || u == 0x2028 || u == 0x2029
        || u == 0x202F || u == 0x205F || u == 0x3000
}

pub open spec fn trim_start_view(s: Seq<char>) -> Seq<char>
    decreases s.len(),
{
    if s.len() == 0 {
        s
    } else if is_space_char(s[0]) {
        trim_start_view(s.subrange(1, s.len() as int))
    } else {
        s
    }
}

pub open spec fn trim_end_view(s: Seq<char>) -> Seq<char>
    decreases s.len(),
{
    if s.len() == 0 {
        s
    } else if is_space_char(s[s.len() - 1]) {
        trim_end_view(s.subrange(0, s.len() - 1))
    } else {
        s
    }
}

/// The view of a string with leading and trailing whitespace removed.
pub open spec fn trim_view(s: Seq<char>) -> Seq<char> {
    trim_end_view(trim_start_view(s))
}

/// A string is blank when nothing is left of it after trimming.
pub open spec fn is_blank(s: Seq<char>) -> bool {
    trim_view(s).len() == 0
}

proof fn lemma_trim_start_range(s: Seq<char>, i: int)
    requires
        0 <= i <= s.len(),
        forall|k: int| 0 <= k < i ==> is_space_char(s[k]),
        i < s.len() ==> !is_space_char(s[i]),
    ensures
        trim_start_view(s) == s.subrange(i, s.len() as int),
    decreases i,
{
    if i == 0 {
        assert(s.subrange(0, s.len() as int) =~= s);
    } else {
        let t = s.subrange(1, s.len() as int);
        lemma_trim_start_range(t, i - 1);
        assert(t.subrange(i - 1, t.len() as int) =~= s.subrange(i, s.len() as int));
    }
}

proof fn lemma_trim_end_range(s: Seq<char>, j: int)
    requires
        0 <= j <= s.len(),
        forall|k: int| j <= k < s.len() ==> is_space_char(s[k]),
        j > 0 ==> !is_space_char(s[j - 1]),
    ensures
        trim_end_view(s) == s.subrange(0, j),
    decreases s.len() - j,
{
    if j == s.len() {
        if s.len() == 0 {
            assert(s.subrange(0, 0) =~= s);
        } else if is_space_char(s[s.len() - 1]) {
            let t = s.subrange(0, s.len() - 1);
            lemma_trim_end_range(t, t.len() as int);
            assert(t.subrange(0, t.len() as int) =~= t);
            assert(s.subrange(0, s.len() - 1) =~= t);
        } else {
            assert(s.subrange(0, s.len() as int) =~= s);
        }
    } else {
        let t = s.subrange(0, s.len() - 1);
        lemma_trim_end_range(t, j);
        assert(t.subrange(0, j) =~= s.subrange(0, j));
    }
}

/// Trimming a value that holds no leading or trailing whitespace keeps it;
/// in particular trimming is idempotent.
pub proof fn lemma_trim_trimmed(s: Seq<char>)
    ensures
        trim_view(trim_view(s)) == trim_view(s),
        trim_view(s).len() > 0 ==> !is_space_char(trim_view(s)[0]) && !is_space_char(
            trim_view(s)[trim_view(s).len() - 1],
        ),
{
    lemma_trim_start_props(s);
    let m = trim_start_view(s);
    lemma_trim_end_props(m);
    let t = trim_end_view(m);
    if t.len() > 0 {
        lemma_trim_start_range(t, 0);
        lemma_trim_end_range(t, t.len() as int);
    } else {
        lemma_trim_start_range(t, 0);
        lemma_trim_end_range(t, 0);
        assert(t.subrange(0, 0) =~= t);
    }
}

proof fn lemma_trim_start_props(s: Seq<char>)
    ensures
        trim_start_view(s).len() > 0 ==> !is_space_char(trim_start_view(s)[0]),
        trim_start_view(s).len() > 0 ==> trim_start_view(s)[trim_start_view(s).len() - 1] == s[s.len() - 1],
        trim_start_view(s).len() <= s.len(),
    decreases s.len(),
{
    if s.len() > 0 && is_space_char(s[0]) {
        lemma_trim_start_props(s.subrange(1, s.len() as int));
    }
}

proof fn lemma_trim_end_props(s: Seq<char>)
    ensures
        trim_end_view(s).len() > 0 ==> !is_space_char(trim_end_view(s)[trim_end_view(s).len() - 1]),
        trim_end_view(s).len() > 0 ==> trim_end_view(s)[0] == s[0],
        trim_end_view(s).len() <= s.len(),
    decreases s.len(),
{
    if s.len() > 0 && is_space_char(s[s.len() - 1]) {
        lemma_trim_end_props(s.subrange(0, s.len() - 1));
    }
}

/// Removes leading and trailing whitespace, as `str::trim` does.
pub fn trim_str(s: &str) -> (r: String)
    ensures
        r@ == trim_view(s@),
{
    let n = s.unicode_len();
    let mut i: usize = 0;
    while i < n && is_space(s.get_char(i))
        invariant
            0 <= i <= n,
            n == s@.len(),
            forall|k: int| 0 <= k < i ==> is_space_char(s@[k]),
        decreases n - i,
    {
        i = i + 1;
    }
    proof {
        lemma_trim_start_range(s@, i as int);
    }
    let mut j: usize = n;
    while j > i && is_space(s.get_char(j - 1))
        invariant
            i <= j <= n,
            n == s@.len(),
            forall|k: int| 0 <= k < i ==> is_space_char(s@[k]),
            i < s@.len() ==> !is_space_char(s@[i as int]),
            forall|k: int| j <= k < n ==> is_space_char(s@[k]),
        decreases j,
    {
        j = j - 1;
    }
    let out = s.substring_char(i, j);
    proof {
        let m = trim_start_view(s@);
        assert(m == s@.subrange(i as int, n as int));
        if j > i {
            lemma_trim_end_range(m, j - i);
            assert(m.subrange(0, j - i) =~= s@.subrange(i as int, j as int));
        } else {
            // everything from i on is whitespace, so i == j and the start
            // trim already removed the whole string
            assert(i == j);
            if m.len() > 0 {
                assert(is_space_char(s@[i as int]));
            }
            assert(m.len() == 0);
            lemma_trim_end_range(m, 0);
            assert(m.subrange(0, 0) =~= s@.subrange(i as int, j as int));
        }
    }
    String::from_str(out)
}

/// Code-point order on character sequences; ties on a common prefix are
/// broken by length. This is the order `str` comparison gives, since
/// UTF-8 byte order agrees with code-point order.
pub open spec fn lex_le(a: Seq<char>, b: Seq<char>) -> bool
    decreases a.len(),
{
    if a.len() == 0 {
        true
    } else if b.len() == 0 {
        false
    } else if a[0] < b[0] {
        true
    } else if a[0] > b[0] {
        false
    } else {
        lex_le(a.subrange(1, a.len() as int), b.subrange(1, b.len() as int))
    }
}

/// `lex_le` is total: any two strings compare one way or the other.
pub proof fn lemma_lex_le_total(a: Seq<char>, b: Seq<char>)
    ensures
        lex_le(a, b) || lex_le(b, a),
        lex_le(a, b) && lex_le(b, a) ==> a == b,
    decreases a.len(),
{
    if a.len() == 0 || b.len() == 0 {
        // one side is empty and compares low
        if a.len() == 0 && b.len() == 0 {
            assert(a =~= b);
        }
    } else if a[0] < b[0] || a[0] > b[0] {
        // the head decides one way or the other
    } else {
        let a1 = a.subrange(1, a.len() as int);
        let b1 = b.subrange(1, b.len() as int);
        lemma_lex_le_total(a1, b1);
        if lex_le(a, b) && lex_le(b, a) {
            assert(a1 == b1);
            assert(a =~= seq![a[0]] + a1);
            assert(b =~= seq![b[0]] + b1);
        }
    }
}

/// `lex_le` is transitive.
pub proof fn lemma_lex_le_trans(a: Seq<char>, b: Seq<char>, c: Seq<char>)
    requires
        lex_le(a, b),
        lex_le(b, c),
    ensures
        lex_le(a, c),
    decreases a.len(),
{
    if a.len() == 0 {
    } else if b.len() == 0 || c.len() == 0 {
    } else if a[0] < b[0] {
        // a is below b at the head, and b's head is at or below c's
    } else if a[0] == b[0] && b[0] < c[0] {
    } else {
        assert(a[0] == b[0] && b[0] == c[0]);
        lemma_lex_le_trans(
            a.subrange(1, a.len() as int),
            b.subrange(1, b.len() as int),
            c.subrange(1, c.len() as int),
        );
    }
}

/// Decides `lex_le` on string slices.
pub fn str_le(a: &str, b: &str) -> (r: bool)
    ensures
        r == lex_le(a@, b@),
{
    let na = a.unicode_len();
    let nb = b.unicode_len();
    proof {
        assert(a@.subrange(0, na as int) =~= a@);
        assert(b@.subrange(0, nb as int) =~= b@);
    }
    let mut i: usize = 0;
    loop
        invariant
            0 <= i <= na,
            i <= nb,
            na == a@.len(),
            nb == b@.len(),
            lex_le(a@, b@) == lex_le(
                a@.subrange(i as int, na as int),
                b@.subrange(i as int, nb as int),
            ),
        decreases na - i,
    {
        proof {
            let ra = a@.subrange(i as int, na as int);
            let rb = b@.subrange(i as int, nb as int);
            if i < na && i < nb && a@[i as int] == b@[i as int] {
                assert(ra.subrange(1, ra.len() as int) =~= a@.subrange(i + 1, na as int));
                assert(rb.subrange(1, rb.len() as int) =~= b@.subrange(i + 1, nb as int));
            }
        }
        if i == na {
            return true;
        }
        if i == nb {
            return false;
        }
        let ca = a.get_char(i);
        let cb = b.get_char(i);
        if ca < cb {
            return true;
        }
        if ca > cb {
            return false;
        }
        i = i + 1;
    }
}

/// The decimal digit character for a value below ten.
pub open spec fn dec_digit(d: int) -> char {
    if d == 0 {
        '0'
    } else if d == 1 {
        '1'
    } else if d == 2 {
        '2'
    } else if d == 3 {
        '3'
    } else if d == 4 {
        '4'
    } else if d == 5 {
        '5'
    } else if d == 6 {
        '6'
    } else if d == 7 {
        '7'
    } else if d == 8 {
        '8'
    } else {
        '9'
    }
}

/// The decimal form of a non-negative number.
pub open spec fn dec_str(n: int) -> Seq<char>
    decreases n,
{
    if n < 10 {
        seq![dec_digit(n)]
    } else {
        dec_str(n / 10).push(dec_digit(n % 10))
    }
}

/// The decimal form of `n`, left-padded with zeros to at least `w` digits.
pub open spec fn dec_pad(n: int, w: int) -> Seq<char>
    decreases w,
{
    if dec_str(n).len() >= w {
        dec_str(n)
    } else {
        seq!['0'] + dec_pad(n, w - 1)
    }
}

fn digit_str(d: u64) -> (r: &'static str)
    requires
        d < 10,
    ensures
        r@ =~= seq![dec_digit(d as int)],
{
    proof {
        reveal_strlit("0");
        reveal_strlit("1");
        reveal_strlit("2");
        reveal_strlit("3");
        reveal_strlit("4");
        reveal_strlit("5");
        reveal_strlit("6");
        reveal_strlit("7");
        reveal_strlit("8");
        reveal_strlit("9");
    }
    if d == 0 {
        "0"
    } else if d == 1 {
        "1"
    } else if d == 2 {
        "2"
    } else if d == 3 {
        "3"
    } else if d == 4 {
        "4"
    } else if d == 5 {
        "5"
    } else if d == 6 {
        "6"
    } else if d == 7 {
        "7"
    } else if d == 8 {
        "8"
    } else {
        "9"
    }
}

/// Appends the decimal form of `n` to `out`.
pub fn push_dec(out: &mut String, n: u64)
    ensures
        final(out)@ == old(out)@ + dec_str(n as int),
    decreases n,
{
    if n < 10 {
        out.append(digit_str(n));
    } else {
        push_dec(out, n / 10);
        out.append(digit_str(n % 10));
        proof {
            assert(old(out)@ + dec_str(n as int / 10) + seq![dec_digit(n as int % 10)] =~= old(
                out,
            )@ + dec_str(n as int));
        }
    }
}

pub proof fn lemma_dec_str_len(n: int)
    ensures
        dec_str(n).len() >= 1,
    decreases n,
{
    if n >= 10 {
        lemma_dec_str_len(n / 10);
    }
}

pub open spec fn pow10(k: nat) -> int
    decreases k,
{
    if k == 0 {
        1
    } else {
        10 * pow10((k - 1) as nat)
    }
}

pub proof fn lemma_dec_str_len_bound(n: int, k: nat)
    requires
        k >= 1,
        0 <= n < pow10(k),
    ensures
        dec_str(n).len() <= k,
    decreases k,
{
    if n >= 10 {
        assert(n / 10 < pow10((k - 1) as nat)) by (nonlinear_arith)
            requires
                n < 10 * pow10((k - 1) as nat),
                n >= 10,
        ;
        lemma_dec_str_len_bound(n / 10, (k - 1) as nat);
    }
}

/// Appends the decimal form of `n`, zero-padded to at least `w` digits.
pub fn push_dec_pad(out: &mut String, n: u64, w: usize)
    ensures
        final(out)@ == old(out)@ + dec_pad(n as int, w as int),
    decreases w,
{
    let len = dec_len(n);
    if len >= w {
        proof {
            assert(dec_pad(n as int, w as int) == dec_str(n as int));
        }
        push_dec(out, n);
    } else {
        out.append("0");
        proof {
            reveal_strlit("0");
        }
        push_dec_pad(out, n, w - 1);
        proof {
            assert(old(out)@ + (seq!['0'] + dec_pad(n as int, w - 1)) =~= old(out)@ + seq!['0']
                + dec_pad(n as int, w - 1));
        }
    }
}

/// The number of decimal digits of `n`.
fn dec_len(n: u64) -> (r: usize)
    ensures
        r == dec_str(n as int).len(),
{
    proof {
        reveal_with_fuel(pow10, 21);
        assert(n < pow10(20));
        lemma_dec_str_len_bound(n as int, 20);
    }
    let mut m = n;
    let mut r: usize = 1;
    while m >= 10
        invariant
            r >= 1,
            r + dec_str(m as int).len() == 1 + dec_str(n as int).len(),
            dec_str(n as int).len() <= 20,
        decreases m,
    {
        proof {
            lemma_dec_str_len(m as int / 10);
        }
        m = m / 10;
        r = r + 1;
    }
    r
}

/// Every character of a decimal form is a digit.
pub proof fn lemma_dec_str_all_digits(n: int)
    requires
        n >= 0,
    ensures
        all_digits(dec_str(n)),
    decreases n,
{
    if n >= 10 {
        lemma_dec_str_all_digits(n / 10);
        assert forall|k: int| 0 <= k < dec_str(n).len() implies is_dec_digit(dec_str(n)[k]) by {
            if k < dec_str(n).len() - 1 {
                assert(dec_str(n)[k] == dec_str(n / 10)[k]);
            }
        }
    }
}

/// Every character of a padded decimal form is a digit.
pub proof fn lemma_dec_pad_all_digits(n: int, w: int)
    requires
        n >= 0,
    ensures
        all_digits(dec_pad(n, w)),
    decreases w,
{
    lemma_dec_str_all_digits(n);
    if dec_str(n).len() < w {
        lemma_dec_pad_all_digits(n, w - 1);
        assert forall|k: int| 0 <= k < dec_pad(n, w).len() implies is_dec_digit(
            dec_pad(n, w)[k],
        ) by {
            if k > 0 {
                assert(dec_pad(n, w)[k] == dec_pad(n, w - 1)[k - 1]);
            }
        }
    }
}

/// The length of a padded decimal form: the width, unless the plain form
/// is already longer.
pub proof fn lemma_dec_pad_len(n: int, w: int)
    ensures
        dec_pad(n, w).len() == if dec_str(n).len() >= w {
            dec_str(n).len() as int
        } else {
            w
        },
    decreases w,
{
    if dec_str(n).len() < w {
        lemma_dec_pad_len(n, w - 1);
    }
}

/// Digit characters read back as their values.
proof fn lemma_digit_roundtrip(d: int)
    requires
        0 <= d < 10,
    ensures
        digit_val(dec_digit(d)) == d,
{
}

/// Reading back the decimal form gives the number.
pub proof fn lemma_dec_val_str(n: int)
    requires
        n >= 0,
    ensures
        dec_val(dec_str(n)) == n,
    decreases n,
{
    if n < 10 {
        let s = dec_str(n);
        lemma_digit_roundtrip(n);
        assert(s.subrange(0, 0) =~= Seq::<char>::empty());
        assert(dec_val(s) == dec_val(s.subrange(0, 0)) * 10 + digit_val(s[0]));
    } else {
        lemma_dec_val_str(n / 10);
        lemma_digit_roundtrip(n % 10);
        let s = dec_str(n);
        assert(s.subrange(0, s.len() - 1) =~= dec_str(n / 10));
        assert(dec_val(s) == dec_val(s.subrange(0, s.len() - 1)) * 10 + digit_val(s[s.len() - 1]));
    }
}

/// A leading zero does not change the value of a digit string.
pub proof fn lemma_dec_val_leading_zero(s: Seq<char>)
    ensures
        dec_val(seq!['0'] + s) == dec_val(s),
    decreases s.len(),
{
    let z = seq!['0'] + s;
    if s.len() == 0 {
        assert(z.subrange(0, 0) =~= Seq::<char>::empty());
        assert(dec_val(z) == dec_val(z.subrange(0, 0)) * 10 + digit_val(z[0]));
    } else {
        lemma_dec_val_leading_zero(s.subrange(0, s.len() - 1));
        assert(z.subrange(0, z.len() - 1) =~= seq!['0'] + s.subrange(0, s.len() - 1));
        assert(z[z.len() - 1] == s[s.len() - 1]);
    }
}

/// Reading back a padded decimal form gives the number.
pub proof fn lemma_dec_val_pad(n: int, w: int)
    requires
        n >= 0,
    ensures
        dec_val(dec_pad(n, w)) == n,
    decreases w,
{
    if dec_str(n).len() >= w {
        lemma_dec_val_str(n);
    } else {
        lemma_dec_val_pad(n, w - 1);
        lemma_dec_val_leading_zero(dec_pad(n, w - 1));
    }
}

/// The value of a digit character, ten for a non-digit.
pub open spec fn digit_val(c: char) -> int {
    if c == '0' {
        0
    } else if c == '1' {
        1
    } else if c == '2' {
        2
    } else if c == '3' {
        3
    } else if c == '4' {
        4
    } else if c == '5' {
        5
    } else if c == '6' {
        6
    } else if c == '7' {
        7
    } else if c == '8' {
        8
    } else if c == '9' {
        9
    } else {
        10
    }
}

pub open spec fn is_dec_digit(c: char) -> bool {
    digit_val(c) < 10
}

/// Every character of `s` is a decimal digit.
pub open spec fn all_digits(s: Seq<char>) -> bool {
    forall|k: int| 0 <= k < s.len() ==> is_dec_digit(s[k])
}

/// The numeric value of a digit string, read left to right.
pub open spec fn dec_val(s: Seq<char>) -> int
    decreases s.len(),
{
    if s.len() == 0 {
        0
    } else {
        dec_val(s.subrange(0, s.len() - 1)) * 10 + digit_val(s[s.len() - 1])
    }
}

/// A digit character is not whitespace.
pub proof fn lemma_digit_not_space(c: char)
    ensures
        is_dec_digit(c) ==> !is_space_char(c),
{
}

/// A non-empty string whose ends are not whitespace trims to itself.
pub proof fn lemma_trim_noop(s: Seq<char>)
    requires
        s.len() > 0,
        !is_space_char(s[0]),
        !is_space_char(s[s.len() - 1]),
    ensures
        trim_view(s) == s,
{
    lemma_trim_start_range(s, 0);
    lemma_trim_end_range(s, s.len() as int);
    assert(s.subrange(0, s.len() as int) =~= s);
}

/// Decides `all_digits` on a string slice.
pub fn all_digits_str(s: &str) -> (r: bool)
    ensures
        r == all_digits(s@),
{
    let n = s.unicode_len();
    let mut i: usize = 0;
    while i < n
        invariant
            0 <= i <= n,
            n == s@.len(),
            forall|k: int| 0 <= k < i ==> is_dec_digit(s@[k]),
        decreases n - i,
    {
        if !is_digit(s.get_char(i)) {
            return false;
        }
        i = i + 1;
    }
    true
}

/// Runtime test for `is_dec_digit`.
pub fn is_digit(c: char) -> (r: bool)
    ensures
        r == is_dec_digit(c),
{
    let u = c as u32;
    0x30 <= u && u <= 0x39
}

/// Character equality of two string slices.
pub fn str_eq(a: &str, b: &str) -> (r: bool)
    ensures
        r == (a@ == b@),
{
    let na = a.unicode_len();
    let nb = b.unicode_len();
    if na != nb {
        proof {
            assert(a@ != b@);
        }
        return false;
    }
    let mut i: usize = 0;
    while i < na
        invariant
            0 <= i <= na,
            na == a@.len() && na == b@.len(),
            forall|k: int| 0 <= k < i ==> a@[k] == b@[k],
        decreases na - i,
    {
        if a.get_char(i) != b.get_char(i) {
            proof {
                assert(a@ != b@);
            }
            return false;
        }
        i = i + 1;
    }
    proof {
        assert(a@ =~= b@);
    }
    true
}

/// `p` is a prefix of `s`.
pub open spec fn has_prefix(s: Seq<char>, p: Seq<char>) -> bool {
    p.len() <= s.len() && s.subrange(0, p.len() as int) == p
}

/// `p` is a suffix of `s`.
pub open spec fn has_suffix(s: Seq<char>, p: Seq<char>) -> bool {
    p.len() <= s.len() && s.subrange(s.len() - p.len(), s.len() as int) == p
}

/// `sub` occurs somewhere inside `s`.
pub open spec fn has_substring(s: Seq<char>, sub: Seq<char>) -> bool {
    exists|i: int|
        0 <= i && i + sub.len() <= s.len() && #[trigger] s.subrange(i, i + sub.len()) == sub
}

/// Decides `has_prefix` on string slices.
pub fn starts_with_str(s: &str, p: &str) -> (r: bool)
    ensures
        r == has_prefix(s@, p@),
{
    let ns = s.unicode_len();
    let np = p.unicode_len();
    if np > ns {
        return false;
    }
    let head = s.substring_char(0, np);
    str_eq(head, p)
}

/// Decides `has_suffix` on string slices.
pub fn ends_with_str(s: &str, p: &str) -> (r: bool)
    ensures
        r == has_suffix(s@, p@),
{
    let ns = s.unicode_len();
    let np = p.unicode_len();
    if np > ns {
        return false;
    }
    let tail = s.substring_char(ns - np, ns);
    str_eq(tail, p)
}

/// Decides `has_substring` on string slices.
pub fn contains_str(s: &str, sub: &str) -> (r: bool)
    ensures
        r == has_substring(s@, sub@),
{
    let ns = s.unicode_len();
    let nsub = sub.unicode_len();
    if nsub > ns {
        proof {
            assert(!has_substring(s@, sub@));
        }
        return false;
    }
    if nsub == 0 {
        proof {
            let w: int = 0;
            assert(s@.subrange(w, w + sub@.len()) =~= sub@);
            assert(has_substring(s@, sub@));
        }
        return true;
    }
    let mut i: usize = 0;
    while i <= ns - nsub
        invariant
            0 <= i <= ns - nsub + 1,
            0 < nsub <= ns,
            ns == s@.len() && nsub == sub@.len(),
            forall|k: int| 0 <= k < i ==> #[trigger] s@.subrange(k, k + sub@.len()) != sub@,
        decreases ns - i,
    {
        let window = s.substring_char(i, i + nsub);
        if str_eq(window, sub) {
            return true;
        }
        i = i + 1;
    }
    proof {
        assert forall|k: int| 0 <= k && k + sub@.len() <= s@.len() implies #[trigger] s@.subrange(
            k,
            k + sub@.len(),
        ) != sub@ by {
            assert(k < i);
        }
    }
    false
}

pub proof fn lemma_dec_val_nonneg(s: Seq<char>)
    requires
        all_digits(s),
    ensures
        dec_val(s) >= 0,
    decreases s.len(),
{
    if s.len() > 0 {
        let p = s.subrange(0, s.len() - 1);
        assert(all_digits(p));
        lemma_dec_val_nonneg(p);
    }
}

/// Dropping trailing digits never increases the value.
pub proof fn lemma_dec_val_prefix(s: Seq<char>, k: int)
    requires
        all_digits(s),
        0 <= k <= s.len(),
    ensures
        dec_val(s.subrange(0, k)) <= dec_val(s),
    decreases s.len() - k,
{
    if k < s.len() {
        let p = s.subrange(0, s.len() - 1);
        assert(all_digits(p));
        lemma_dec_val_nonneg(p);
        lemma_dec_val_prefix(p, k);
        assert(p.subrange(0, k) =~= s.subrange(0, k));
    } else {
        assert(s.subrange(0, k) =~= s);
    }
}

/// The value of a digit string is below ten to its length.
pub proof fn lemma_dec_val_bound(s: Seq<char>)
    requires
        all_digits(s),
    ensures
        0 <= dec_val(s) < pow10(s.len() as nat),
    decreases s.len(),
{
    if s.len() == 0 {
    } else {
        let p = s.subrange(0, s.len() - 1);
        assert(all_digits(p));
        lemma_dec_val_bound(p);
        assert(digit_val(s[s.len() - 1]) <= 9);
    }
}

/// Parses a non-empty all-digit string as a `u64`; `None` when the text is
/// empty, has a non-digit, or the value does not fit.
pub fn parse_u64_digits(s: &str) -> (r: Option<u64>)
    ensures
        match r {
            Some(v) => s@.len() > 0 && all_digits(s@) && v == dec_val(s@),
            None => s@.len() == 0 || !all_digits(s@) || dec_val(s@) > u64::MAX,
        },
{
    let n = s.unicode_len();
    if n == 0 {
        return None;
    }
    let mut acc: u64 = 0;
    let mut i: usize = 0;
    while i < n
        invariant
            0 <= i <= n,
            n == s@.len(),
            forall|k: int| 0 <= k < i ==> is_dec_digit(s@[k]),
            acc == dec_val(s@.subrange(0, i as int)),
        decreases n - i,
    {
        let c = s.get_char(i);
        if !is_digit(c) {
            return None;
        }
        let d = digit_of(c);
        proof {
            // the value of the prefix one longer is acc * 10 + d
            assert(s@.subrange(0, i + 1).subrange(0, i as int) =~= s@.subrange(0, i as int));
        }
        if acc > (u64::MAX - d as u64) / 10 {
            // the running value already exceeds the representable range,
            // and appending digits can only grow it
            proof {
                if all_digits(s@) {
                    lemma_dec_val_prefix(s@, i + 1);
                }
            }
            return None;
        }
        acc = acc * 10 + d as u64;
        i = i + 1;
    }
    proof {
        assert(s@.subrange(0, n as int) =~= s@);
    }
    Some(acc)
}

/// The numeric value of a digit character.
pub fn digit_of(c: char) -> (d: u8)
    requires
        is_dec_digit(c),
    ensures
        d == digit_val(c),
{
    ((c as u32) - 0x30) as u8
}

/// The ASCII-lowercase image of a character.
pub open spec fn lower_char(c: char) -> char {
    if 'A' <= c && c <= 'Z' {
        ((c as u32) + 0x20) as char
    } else {
        c
    }
}

/// The ASCII-lowercase image of a string.
pub open spec fn lower_view(s: Seq<char>) -> Seq<char> {
    s.map_values(|c: char| lower_char(c))
}

/// Lower-cases the ASCII letters of a string, as
/// `str::to_ascii_lowercase` does.
pub fn lower_ascii(s: &str) -> (r: String)
    ensures
        r@ == lower_view(s@),
{
    let n = s.unicode_len();
    let mut out = String::new();
    let mut i: usize = 0;
    while i < n
        invariant
            0 <= i <= n,
            n == s@.len(),
            out@ == lower_view(s@.subrange(0, i as int)),
        decreases n - i,
    {
        let c = s.get_char(i);
        let u = c as u32;
        let lc: char = if 0x41 <= u && u <= 0x5A {
            char_from_code(u + 0x20)
        } else {
            c
        };
        push_char(&mut out, lc);
        proof {
            assert(lower_view(s@.subrange(0, i + 1)) =~= lower_view(s@.subrange(0, i as int))
                + seq![lower_char(s@[i as int])]);
        }
        i = i + 1;
    }
    proof {
        assert(s@.subrange(0, n as int) =~= s@);
    }
    out
}

/// Relies on char::from_u32: for a code point in the ASCII range it
/// returns `Some` of the character with that code.
#[verifier::external_body]
fn char_from_code(u: u32) -> (c: char)
    requires
        0x61 <= u <= 0x7A,
    ensures
        c == u as char,
{
    char::from_u32(u).unwrap_or(' ')
}

/// Relies on String::push: appends the given character to the string.
#[verifier::external_body]
pub fn push_char(out: &mut String, c: char)
    ensures
        final(out)@ == old(out)@.push(c),
{
    out.push(c);
}

/// Whether a list of strings holds this text.
pub fn contains_text_in(list: &Vec<String>, t: &str) -> (r: bool)
    ensures
        r == list@.map_values(|s: String| s@).contains(t@),
{
    let n = list.len();
    let mut i: usize = 0;
    while i < n
        invariant
            0 <= i <= n,
            n == list@.len(),
            forall|k: int| 0 <= k < i ==> (#[trigger] list@[k])@ != t@,
        decreases n - i,
    {
        if str_eq(list[i].as_str(), t) {
            proof {
                assert(list@.map_values(|s: String| s@)[i as int] == t@);
            }
            return true;
        }
        i = i + 1;
    }
    proof {
        let v = list@.map_values(|s: String| s@);
        if v.contains(t@) {
            let k = choose|k: int| 0 <= k < v.len() && v[k] == t@;
            assert(v[k] == list@[k]@);
        }
    }
    false
}

/// A substring of either part is a substring of the concatenation.
pub proof fn lemma_substring_concat(a: Seq<char>, b: Seq<char>, sub: Seq<char>)
    ensures
        has_substring(a, sub) ==> has_substring(a + b, sub),
        has_substring(b, sub) ==> has_substring(a + b, sub),
{
    if has_substring(a, sub) {
        let i = choose|i: int|
            0 <= i && i + sub.len() <= a.len() && #[trigger] a.subrange(i, i + sub.len()) == sub;
        assert((a + b).subrange(i, i + sub.len()) =~= a.subrange(i, i + sub.len()));
    }
    if has_substring(b, sub) {
        let i = choose|i: int|
            0 <= i && i + sub.len() <= b.len() && #[trigger] b.subrange(i, i + sub.len()) == sub;
        assert((a + b).subrange(a.len() as int + i, a.len() as int + i + sub.len() as int)
            =~= b.subrange(i, i + sub.len() as int));
    }
}

/// A sequence embedded between two others is a substring of the whole.
pub proof fn lemma_substring_here(a: Seq<char>, sub: Seq<char>)
    ensures
        has_substring(a + sub, sub),
{
    assert((a + sub).subrange(a.len() as int, a.len() as int + sub.len() as int) =~= sub);
}

} // verus!
