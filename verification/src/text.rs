//! Character-level building blocks: Unicode white space, trimming,
//! splitting on a separator, decimal rendering and ASCII case folding.

use vstd::prelude::*;

verus! {

/// `String::push` appends one character.
pub assume_specification[ String::push ](s: &mut String, ch: char)
    ensures
        final(s)@ == old(s)@.push(ch),
;

/// The Unicode `White_Space` property, which is what `char::is_whitespace`
/// and `str::trim` use.
pub open spec fn is_white_space(c: char) -> bool {
    let u = c as u32;
    ||| 9 <= u <= 13
    ||| u == 32
    ||| u == 0x85
    ||| u == 0xA0
    ||| u == 0x1680
    ||| 0x2000 <= u <= 0x200A
    ||| u == 0x2028
    ||| u == 0x2029
    ||| u == 0x202F
    ||| u == 0x205F
    ||| u == 0x3000
}

/// Executable form of [`is_white_space`].
pub fn char_is_white_space(c: char) -> (r: bool)
    ensures
        r == is_white_space(c),
{
    let u = c as u32;
    (9 <= u && u <= 13) || u == 32 || u == 0x85 || u == 0xA0 || u == 0x1680 || (0x2000 <= u
        && u <= 0x200A) || u == 0x2028 || u == 0x2029 || u == 0x202F || u == 0x205F || u == 0x3000
}

/// `s` with its leading white space removed.
pub open spec fn trim_start(s: Seq<char>) -> Seq<char>
    decreases s.len(),
{
    if s.len() > 0 && is_white_space(s[0]) {
        trim_start(s.drop_first())
    } else {
        s
    }
}

/// `s` with its trailing white space removed.
pub open spec fn trim_end(s: Seq<char>) -> Seq<char>
    decreases s.len(),
{
    if s.len() > 0 && is_white_space(s.last()) {
        trim_end(s.drop_last())
    } else {
        s
    }
}

/// `s` with white space removed at both ends, as `str::trim` does.
pub open spec fn trim(s: Seq<char>) -> Seq<char> {
    trim_end(trim_start(s))
}

/// Every character of `s` is white space (so `trim(s)` is empty).
pub open spec fn all_white_space(s: Seq<char>) -> bool {
    forall|i: int| 0 <= i < s.len() ==> is_white_space(#[trigger] s[i])
}

/// The pieces of `s` between occurrences of `sep`, as `str::split` with a
/// character pattern yields them: one more piece than there are separators.
pub open spec fn split(s: Seq<char>, sep: char) -> Seq<Seq<char>>
    decreases s.len(),
{
    if s.len() == 0 {
        seq![Seq::<char>::empty()]
    } else {
        let p = split(s.drop_last(), sep);
        if s.last() == sep {
            p.push(Seq::<char>::empty())
        } else {
            p.update(p.len() - 1, p.last().push(s.last()))
        }
    }
}

pub proof fn lemma_split_len(s: Seq<char>, sep: char)
    ensures
        split(s, sep).len() >= 1,
    decreases s.len(),
{
    if s.len() > 0 {
        lemma_split_len(s.drop_last(), sep);
    }
}

/// The last piece of `s` is its tail after the last separator: when it is
/// not empty, it ends with the last character of `s`.
pub proof fn lemma_split_last_piece(s: Seq<char>, sep: char)
    ensures
        split(s, sep).len() >= 1,
        split(s, sep).last().len() > 0 ==> split(s, sep).last().last() == s.last(),
    decreases s.len(),
{
    if s.len() > 0 {
        lemma_split_last_piece(s.drop_last(), sep);
    }
}

/// Appending a separator and then a piece without separators adds that
/// piece after the pieces of `s`.
pub proof fn lemma_split_append_piece(s: Seq<char>, sep: char, t: Seq<char>)
    requires
        forall|k: int| 0 <= k < t.len() ==> t[k] != sep,
    ensures
        split(s + seq![sep] + t, sep) == split(s, sep).push(t),
    decreases t.len(),
{
    let x = s + seq![sep] + t;
    if t.len() == 0 {
        assert(x.drop_last() =~= s);
        assert(x.last() == sep);
        assert(t =~= Seq::<char>::empty());
    } else {
        lemma_split_append_piece(s, sep, t.drop_last());
        assert(x.drop_last() =~= s + seq![sep] + t.drop_last());
        assert(x.last() == t.last());
        let p = split(s, sep).push(t.drop_last());
        assert(t.drop_last().push(t.last()) =~= t);
        assert(p.last() == t.drop_last());
        assert(p.update(p.len() - 1, p.last().push(t.last())) =~= split(s, sep).push(t));
    }
}

/// `s` with every `'\n'` written as `"\r\n"`.
pub open spec fn crlf_text(s: Seq<char>) -> Seq<char>
    decreases s.len(),
{
    if s.len() == 0 {
        s
    } else if s.last() == '\n' {
        crlf_text(s.drop_last()) + seq!['\r', '\n']
    } else {
        crlf_text(s.drop_last()).push(s.last())
    }
}

/// Writing line breaks as `"\r\n"` gives the same lines, each but the last
/// one ending with `'\r'`.
pub proof fn lemma_split_crlf(s: Seq<char>)
    ensures
        split(crlf_text(s), '\n').len() == split(s, '\n').len(),
        split(crlf_text(s), '\n').last() == split(s, '\n').last(),
        forall|i: int|
            0 <= i < split(s, '\n').len() - 1 ==> #[trigger] split(crlf_text(s), '\n')[i]
                == split(s, '\n')[i].push('\r'),
    decreases s.len(),
{
    lemma_split_len(s, '\n');
    if s.len() > 0 {
        let s0 = s.drop_last();
        lemma_split_crlf(s0);
        lemma_split_len(s0, '\n');
        let p = split(s0, '\n');
        let q = split(crlf_text(s0), '\n');
        let c = crlf_text(s);
        if s.last() == '\n' {
            let x = crlf_text(s0).push('\r');
            assert(c.drop_last() =~= x);
            assert(x.drop_last() =~= crlf_text(s0));
            assert(split(x, '\n') == q.update(q.len() - 1, q.last().push('\r')));
            assert(split(c, '\n') == split(x, '\n').push(Seq::<char>::empty()));
            assert forall|i: int| 0 <= i < split(s, '\n').len() - 1 implies #[trigger] split(
                c,
                '\n',
            )[i] == split(s, '\n')[i].push('\r') by {
                assert(split(s, '\n')[i] == p[i]);
                if i < p.len() - 1 {
                    assert(q[i] == p[i].push('\r'));
                }
            }
        } else {
            assert(c.drop_last() =~= crlf_text(s0));
            assert(split(c, '\n') == q.update(q.len() - 1, q.last().push(s.last())));
            assert forall|i: int| 0 <= i < split(s, '\n').len() - 1 implies #[trigger] split(
                c,
                '\n',
            )[i] == split(s, '\n')[i].push('\r') by {
                assert(q[i] == p[i].push('\r'));
            }
        }
    }
}

/// Copies the characters of `s` into a vector.
pub fn chars_of(s: &str) -> (v: Vec<char>)
    ensures
        v@ == s@,
{
    let mut v: Vec<char> = Vec::new();
    for c in it: s.chars()
        invariant
            v@ == it.seq().take(it.index() as int),
    {
        v.push(c);
    }
    v
}


/// A string holding `chars[lo..hi]`.
pub fn string_from_range(chars: &Vec<char>, lo: usize, hi: usize) -> (r: String)
    requires
        lo <= hi <= chars@.len(),
    ensures
        r@ == chars@.subrange(lo as int, hi as int),
{
    let mut r = String::new();
    let mut i = lo;
    while i < hi
        invariant
            lo <= i <= hi <= chars@.len(),
            r@ == chars@.subrange(lo as int, i as int),
        decreases hi - i,
    {
        r.push(chars[i]);
        assert(chars@.subrange(lo as int, i + 1) =~= chars@.subrange(lo as int, i as int).push(
            chars@[i as int],
        ));
        i += 1;
    }
    r
}

/// Where `trim_start(chars[lo..hi])` begins inside `chars`.
pub fn trim_start_range(chars: &Vec<char>, lo: usize, hi: usize) -> (a: usize)
    requires
        lo <= hi <= chars@.len(),
    ensures
        lo <= a <= hi,
        chars@.subrange(a as int, hi as int) == trim_start(chars@.subrange(lo as int, hi as int)),
{
    let ghost s = chars@.subrange(lo as int, hi as int);
    let mut a = lo;
    while a < hi && char_is_white_space(chars[a])
        invariant
            lo <= a <= hi <= chars@.len(),
            trim_start(s) == trim_start(chars@.subrange(a as int, hi as int)),
        decreases hi - a,
    {
        assert(chars@.subrange(a as int, hi as int).drop_first() =~= chars@.subrange(
            a + 1,
            hi as int,
        ));
        a += 1;
    }
    a
}

/// The bounds of `trim(chars[lo..hi])` inside `chars`.
pub fn trim_range(chars: &Vec<char>, lo: usize, hi: usize) -> (r: (usize, usize))
    requires
        lo <= hi <= chars@.len(),
    ensures
        lo <= r.0 <= r.1 <= hi,
        chars@.subrange(r.0 as int, r.1 as int) == trim(chars@.subrange(lo as int, hi as int)),
{
    let a = trim_start_range(chars, lo, hi);
    let ghost t = chars@.subrange(a as int, hi as int);
    let mut b = hi;
    while b > a && char_is_white_space(chars[b - 1])
        invariant
            lo <= a <= b <= hi <= chars@.len(),
            trim_end(t) == trim_end(chars@.subrange(a as int, b as int)),
        decreases b - a,
    {
        assert(chars@.subrange(a as int, b as int).drop_last() =~= chars@.subrange(
            a as int,
            b - 1,
        ));
        b -= 1;
    }
    (a, b)
}

/// The pieces of `chars[lo..hi]` between occurrences of `sep`.
pub fn split_range(chars: &Vec<char>, lo: usize, hi: usize, sep: char) -> (r: Vec<String>)
    requires
        lo <= hi <= chars@.len(),
    ensures
        r.deep_view() == split(chars@.subrange(lo as int, hi as int), sep),
{
    let mut fields: Vec<String> = Vec::new();
    let mut cur = String::new();
    let mut i = lo;
    assert(chars@.subrange(lo as int, lo as int) =~= Seq::<char>::empty());
    assert(fields.deep_view().push(cur@) =~= split(chars@.subrange(lo as int, lo as int), sep));
    while i < hi
        invariant
            lo <= i <= hi <= chars@.len(),
            fields.deep_view().push(cur@) == split(chars@.subrange(lo as int, i as int), sep),
        decreases hi - i,
    {
        let c = chars[i];
        let ghost prev = fields.deep_view().push(cur@);
        let ghost s1 = chars@.subrange(lo as int, i + 1);
        assert(s1.drop_last() =~= chars@.subrange(lo as int, i as int));
        assert(s1.last() == c);
        if c == sep {
            fields.push(cur);
            cur = String::new();
            assert(fields.deep_view().push(cur@) =~= prev.push(Seq::<char>::empty()));
        } else {
            cur.push(c);
            assert(fields.deep_view().push(cur@) =~= prev.update(
                prev.len() - 1,
                prev.last().push(c),
            ));
        }
        i += 1;
    }
    let ghost prev = fields.deep_view().push(cur@);
    fields.push(cur);
    assert(fields.deep_view() =~= prev);
    fields
}


/// The character of the decimal digit `d`.
pub open spec fn digit_char(d: nat) -> char {
    (48 + d) as char
}

/// The decimal rendering of `n`, without sign or leading zeros, as
/// `Display` writes an unsigned integer.
pub open spec fn decimal(n: nat) -> Seq<char>
    decreases n,
{
    if n < 10 {
        seq![digit_char(n)]
    } else {
        decimal(n / 10).push(digit_char(n % 10))
    }
}

/// `c` is one of the ten decimal digits.
pub open spec fn is_digit(c: char) -> bool {
    48 <= (c as u32) <= 57
}

fn digit(d: u8) -> (c: char)
    requires
        d < 10,
    ensures
        c == digit_char(d as nat),
{
    (48u8 + d) as char
}

/// The decimal digits of `n`.
pub fn decimal_chars(n: u128) -> (r: Vec<char>)
    ensures
        r@ == decimal(n as nat),
    decreases n,
{
    if n < 10 {
        let mut v: Vec<char> = Vec::new();
        v.push(digit(n as u8));
        assert(v@ =~= decimal(n as nat));
        v
    } else {
        let mut v = decimal_chars(n / 10);
        v.push(digit((n % 10) as u8));
        v
    }
}

/// `n` written in decimal.
pub fn decimal_string(n: usize) -> (r: String)
    ensures
        r@ == decimal(n as nat),
{
    let v = decimal_chars(n as u128);
    string_from_range(&v, 0, v.len())
}

pub proof fn lemma_decimal_digits(n: nat)
    ensures
        decimal(n).len() >= 1,
        forall|i: int| 0 <= i < decimal(n).len() ==> is_digit(#[trigger] decimal(n)[i]),
    decreases n,
{
    if n >= 10 {
        lemma_decimal_digits(n / 10);
    }
}

pub proof fn lemma_digit_char(d: nat)
    requires
        d < 10,
    ensures
        digit_char(d) as u32 == 48 + d,
{
}

pub proof fn lemma_decimal_injective(m: nat, n: nat)
    requires
        decimal(m) == decimal(n),
    ensures
        m == n,
    decreases m,
{
    lemma_decimal_digits(m / 10);
    lemma_decimal_digits(n / 10);
    if m < 10 && n < 10 {
        assert(decimal(m)[0] == decimal(n)[0]);
        lemma_digit_char(m);
        lemma_digit_char(n);
        assert(decimal(m)[0] == digit_char(m));
        assert(decimal(n)[0] == digit_char(n));
        assert(digit_char(m) as u32 == digit_char(n) as u32);
        assert(m == n);
    } else if m >= 10 && n >= 10 {
        assert(decimal(m).drop_last() =~= decimal(m / 10));
        assert(decimal(n).drop_last() =~= decimal(n / 10));
        lemma_decimal_injective(m / 10, n / 10);
        assert(decimal(m).last() == decimal(n).last());
        lemma_digit_char(m % 10);
        lemma_digit_char(n % 10);
        assert(decimal(m).last() == digit_char(m % 10));
        assert(decimal(n).last() == digit_char(n % 10));
        assert(digit_char(m % 10) as u32 == digit_char(n % 10) as u32);
        assert(m % 10 == n % 10);
        assert(m / 10 == n / 10);
        assert(m == n) by (nonlinear_arith)
            requires
                m % 10 == n % 10,
                m / 10 == n / 10,
        ;
    } else if m < 10 {
        assert(decimal(m).len() == 1);
    } else {
        assert(decimal(n).len() == 1);
    }
}

/// Powers of ten.
pub open spec fn pow10(k: nat) -> nat
    decreases k,
{
    if k == 0 {
        1
    } else {
        10 * pow10((k - 1) as nat)
    }
}

pub proof fn lemma_decimal_len_bound(n: nat, k: nat)
    requires
        k >= 1,
        n < pow10(k),
    ensures
        decimal(n).len() <= k,
    decreases k,
{
    if n >= 10 {
        assert(k >= 2) by {
            if k == 1 {
                assert(pow10(1) == 10) by {
                    reveal_with_fuel(pow10, 2);
                }
            }
        }
        assert(n / 10 < pow10((k - 1) as nat)) by (nonlinear_arith)
            requires
                n < pow10(k),
                pow10(k) == 10 * pow10((k - 1) as nat),
        ;
        lemma_decimal_len_bound(n / 10, (k - 1) as nat);
    }
}

} // verus!
