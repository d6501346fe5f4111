//! Worksheet names for the master workbook.
//!
//! Excel sheet names must be 1 to 31 characters long, cannot contain any of
//! `\ / ? * [ ] :` and must be unique within the workbook, ignoring ASCII
//! case. A table name is turned into such a name by replacing forbidden
//! characters with `_`, falling back to `Sheet` for a blank name, clamping
//! to 31 characters and, when the name is taken, trying `_2`, `_3`, ...
//! suffixes (shortening the name so that the suffix fits).

use vstd::prelude::*;
use vstd::set_lib::{lemma_int_range, lemma_len_subset, set_int_range};
use crate::text::{
    all_white_space, char_is_white_space, chars_of, decimal, decimal_chars, is_digit,
    lemma_decimal_digits, lemma_decimal_injective, lemma_decimal_len_bound, pow10,
    string_from_range,
};

verus! {

/// The longest sheet name Excel accepts, in characters.
pub const MAX_SHEET_NAME_CHARS: usize = 31;

/// Characters that a sheet name cannot contain.
pub open spec fn is_forbidden_sheet_char(c: char) -> bool {
    c == '\\' || c == '/' || c == '?' || c == '*' || c == '[' || c == ']' || c == ':'
}

/// `s` with every forbidden character replaced by `_`.
pub open spec fn sanitize_sheet_name(s: Seq<char>) -> Seq<char> {
    s.map_values(|c: char| if is_forbidden_sheet_char(c) { '_' } else { c })
}

/// The name used for a table whose name is blank.
pub open spec fn default_sheet_name() -> Seq<char> {
    seq!['S', 'h', 'e', 'e', 't']
}

/// The sheet name wanted for a table called `raw`, before uniqueness.
pub open spec fn base_sheet_name(raw: Seq<char>) -> Seq<char> {
    let s = sanitize_sheet_name(raw);
    let s1 = if all_white_space(s) {
        default_sheet_name()
    } else {
        s
    };
    if s1.len() > 31 {
        s1.take(31)
    } else {
        s1
    }
}

/// The suffix tried for the `n`-th candidate: `_n`.
pub open spec fn sheet_suffix(n: nat) -> Seq<char> {
    seq!['_'] + decimal(n)
}

/// The `n`-th name tried for `name`: the name itself for `n == 1`, and for
/// `n >= 2` the name shortened so that `_n` fits in 31 characters, then `_n`.
pub open spec fn sheet_candidate(name: Seq<char>, n: nat) -> Seq<char> {
    if n <= 1 {
        name
    } else {
        let suffix = sheet_suffix(n);
        let keep: int = if suffix.len() <= 31 {
            31 - suffix.len()
        } else {
            0
        };
        name.take(
            if keep < name.len() {
                keep
            } else {
                name.len() as int
            },
        ) + suffix
    }
}

/// `c` folded to ASCII lower case (other characters are left alone).
pub open spec fn ascii_fold(c: char) -> u32 {
    let u = c as u32;
    if 65 <= u <= 90 {
        (u + 32) as u32
    } else {
        u
    }
}

/// `a` and `b` are equal when ASCII letters are compared without case, as
/// `str::eq_ignore_ascii_case` decides (non-ASCII characters must match
/// exactly).
pub open spec fn eq_ignore_ascii_case(a: Seq<char>, b: Seq<char>) -> bool {
    a.len() == b.len() && forall|i: int| 0 <= i < a.len() ==> ascii_fold(a[i]) == ascii_fold(b[i])
}

/// Some name of `used` is `c`, ignoring ASCII case.
pub open spec fn name_in_use(used: Seq<Seq<char>>, c: Seq<char>) -> bool {
    exists|i: int| 0 <= i < used.len() && eq_ignore_ascii_case(#[trigger] used[i], c)
}

/// A name that Excel accepts as far as length and characters go.
pub open spec fn valid_sheet_name(s: Seq<char>) -> bool {
    &&& 1 <= s.len() <= 31
    &&& forall|i: int| 0 <= i < s.len() ==> !is_forbidden_sheet_char(#[trigger] s[i])
}

/// No two names of `used` are equal ignoring ASCII case.
pub open spec fn names_distinct(used: Seq<Seq<char>>) -> bool {
    forall|i: int, j: int|
        0 <= i < used.len() && 0 <= j < used.len() && i != j ==> !eq_ignore_ascii_case(
            #[trigger] used[i],
            #[trigger] used[j],
        )
}

proof fn lemma_eq_ignore_trans(a: Seq<char>, b: Seq<char>, c: Seq<char>)
    requires
        eq_ignore_ascii_case(a, b),
        eq_ignore_ascii_case(a, c),
    ensures
        eq_ignore_ascii_case(b, c),
        eq_ignore_ascii_case(b, a),
{
    assert forall|i: int| 0 <= i < b.len() implies ascii_fold(b[i]) == ascii_fold(c[i]) by {
        assert(ascii_fold(a[i]) == ascii_fold(b[i]));
    }
}

/// The last characters of a candidate with `n >= 2` are `_` and the digits of `n`.
proof fn lemma_candidate_tail(name: Seq<char>, n: nat)
    requires
        n >= 2,
    ensures
        ({
            let c = sheet_candidate(name, n);
            let d = decimal(n);
            &&& c.len() >= d.len() + 1
            &&& c[c.len() - d.len() - 1] == '_'
            &&& forall|t: int| 0 <= t < d.len() ==> c[c.len() - d.len() + t] == d[t]
        }),
{
    let c = sheet_candidate(name, n);
    let d = decimal(n);
    let suffix = sheet_suffix(n);
    let keep: int = if suffix.len() <= 31 {
        31 - suffix.len()
    } else {
        0
    };
    let p = name.take(
        if keep < name.len() {
            keep
        } else {
            name.len() as int
        },
    );
    assert(c == p + suffix);
    assert forall|t: int| 0 <= t < d.len() implies c[c.len() - d.len() + t] == d[t] by {
        assert(c[c.len() - d.len() + t] == suffix[t + 1]);
    }
}

proof fn lemma_digit_fold(x: char, y: char)
    requires
        is_digit(x),
        is_digit(y),
        ascii_fold(x) == ascii_fold(y),
    ensures
        x == y,
{
}

/// Candidates with different suffix numbers never coincide, ignoring case.
proof fn lemma_candidates_distinct(name: Seq<char>, m: nat, n: nat)
    requires
        m >= 2,
        n >= 2,
        m != n,
    ensures
        !eq_ignore_ascii_case(sheet_candidate(name, m), sheet_candidate(name, n)),
{
    let a = sheet_candidate(name, m);
    let b = sheet_candidate(name, n);
    let dm = decimal(m);
    let dn = decimal(n);
    lemma_candidate_tail(name, m);
    lemma_candidate_tail(name, n);
    lemma_decimal_digits(m);
    lemma_decimal_digits(n);
    if eq_ignore_ascii_case(a, b) {
        let len = a.len();
        if dm.len() == dn.len() {
            assert forall|t: int| 0 <= t < dm.len() implies dm[t] == dn[t] by {
                assert(a[len - dm.len() + t] == dm[t]);
                assert(b[len - dn.len() + t] == dn[t]);
                assert(ascii_fold(a[len - dm.len() + t]) == ascii_fold(b[len - dm.len() + t]));
                lemma_digit_fold(dm[t], dn[t]);
            }
            assert(dm =~= dn);
            lemma_decimal_injective(m, n);
        } else if dm.len() < dn.len() {
            let p = len - dm.len() - 1;
            let t = dn.len() - dm.len() - 1;
            assert(b[len - dn.len() + t] == dn[t]);
            assert(is_digit(b[p]));
            assert(ascii_fold(a[p]) == ascii_fold(b[p]));
        } else {
            let p = len - dn.len() - 1;
            let t = dm.len() - dn.len() - 1;
            assert(a[len - dm.len() + t] == dm[t]);
            assert(is_digit(a[p]));
            assert(ascii_fold(a[p]) == ascii_fold(b[p]));
        }
    }
}

/// Every candidate numbered below 10^20 is a valid sheet name.
proof fn lemma_candidate_valid(raw: Seq<char>, n: nat)
    requires
        1 <= n < pow10(20),
    ensures
        valid_sheet_name(sheet_candidate(base_sheet_name(raw), n)),
{
    let s = sanitize_sheet_name(raw);
    let base = base_sheet_name(raw);
    assert forall|i: int| 0 <= i < base.len() implies !is_forbidden_sheet_char(#[trigger] base[i]) by {
        if !all_white_space(s) {
            assert(base[i] == s[i]);
        }
    }
    if !all_white_space(s) {
        assert(base.len() >= 1);
    }
    if n >= 2 {
        lemma_decimal_len_bound(n, 20);
        lemma_decimal_digits(n);
        let c = sheet_candidate(base, n);
        let suffix = sheet_suffix(n);
        let keep: int = 31 - suffix.len();
        let p = base.take(
            if keep < base.len() {
                keep
            } else {
                base.len() as int
            },
        );
        assert(c == p + suffix);
        assert forall|i: int| 0 <= i < c.len() implies !is_forbidden_sheet_char(#[trigger] c[i]) by {
            if i < p.len() {
                assert(c[i] == base[i]);
            } else if i > p.len() {
                assert(c[i] == decimal(n)[i - p.len() - 1]);
            }
        }
    }
}

/// The first candidate number, from `k` on and trying at most `fuel` more,
/// whose candidate is not in use.
pub open spec fn first_free_candidate(used: Seq<Seq<char>>, base: Seq<char>, k: nat, fuel: nat) -> nat
    decreases fuel,
{
    if fuel == 0 || !name_in_use(used, sheet_candidate(base, k)) {
        k
    } else {
        first_free_candidate(used, base, k + 1, (fuel - 1) as nat)
    }
}

/// The sheet name chosen for a table called `raw` when the names `used` are
/// taken: the first candidate that is not in use.
pub open spec fn unique_sheet_name_for(raw: Seq<char>, used: Seq<Seq<char>>) -> Seq<char> {
    let b = base_sheet_name(raw);
    sheet_candidate(b, first_free_candidate(used, b, 1, used.len() + 1))
}

proof fn lemma_first_free(used: Seq<Seq<char>>, base: Seq<char>, s: nat, fuel: nat, k: nat)
    requires
        s <= k <= s + fuel,
        forall|m: nat| s <= m < k ==> name_in_use(used, #[trigger] sheet_candidate(base, m)),
        !name_in_use(used, sheet_candidate(base, k)),
    ensures
        first_free_candidate(used, base, s, fuel) == k,
    decreases fuel,
{
    if k > s {
        assert(name_in_use(used, sheet_candidate(base, s)));
        lemma_first_free(used, base, s + 1, (fuel - 1) as nat, k);
    }
}

proof fn lemma_first_free_props(used: Seq<Seq<char>>, base: Seq<char>, s: nat, fuel: nat)
    ensures
        ({
            let k = first_free_candidate(used, base, s, fuel);
            &&& s <= k <= s + fuel
            &&& forall|m: nat| s <= m < k ==> name_in_use(used, #[trigger] sheet_candidate(base, m))
            &&& (!name_in_use(used, sheet_candidate(base, k)) || k == s + fuel)
        }),
    decreases fuel,
{
    if fuel > 0 && name_in_use(used, sheet_candidate(base, s)) {
        lemma_first_free_props(used, base, s + 1, (fuel - 1) as nat);
    }
}

/// The indices of `used` taken by the candidates `2..=n`, all in use.
proof fn lemma_taken_indices(used: Seq<Seq<char>>, base: Seq<char>, n: nat) -> (hits: Set<int>)
    requires
        n >= 1,
        forall|m: nat| 2 <= m <= n ==> name_in_use(used, #[trigger] sheet_candidate(base, m)),
    ensures
        hits.finite(),
        hits.len() == n - 1,
        forall|i: int|
            #[trigger] hits.contains(i) ==> 0 <= i < used.len() && exists|m: nat|
                2 <= m <= n && eq_ignore_ascii_case(used[i], #[trigger] sheet_candidate(base, m)),
    decreases n,
{
    if n == 1 {
        Set::empty()
    } else {
        let prev = lemma_taken_indices(used, base, (n - 1) as nat);
        assert(name_in_use(used, sheet_candidate(base, n)));
        let j = choose|j: int| 0 <= j < used.len() && eq_ignore_ascii_case(#[trigger] used[j], sheet_candidate(base, n));
        if prev.contains(j) {
            let m = choose|m: nat|
                2 <= m <= n - 1 && eq_ignore_ascii_case(used[j], #[trigger] sheet_candidate(base, m));
            lemma_eq_ignore_trans(used[j], sheet_candidate(base, m), sheet_candidate(base, n));
            lemma_candidates_distinct(base, m, n);
        }
        prev.insert(j)
    }
}

/// The chosen name is free: some candidate among the first `used.len() + 2`
/// is not in use, since the candidates from the second on differ pairwise.
pub proof fn lemma_unique_name_free(raw: Seq<char>, used: Seq<Seq<char>>)
    ensures
        !name_in_use(used, unique_sheet_name_for(raw, used)),
        used.len() + 2 < pow10(20) ==> valid_sheet_name(unique_sheet_name_for(raw, used)),
{
    let b = base_sheet_name(raw);
    let len = used.len();
    lemma_first_free_props(used, b, 1, len + 1);
    let k = first_free_candidate(used, b, 1, len + 1);
    if name_in_use(used, sheet_candidate(b, k)) {
        assert(k == len + 2);
        assert forall|m: nat| 2 <= m <= k implies name_in_use(used, #[trigger] sheet_candidate(b, m)) by {
            if m < k {
                assert(name_in_use(used, sheet_candidate(b, m)));
            }
        }
        let hits = lemma_taken_indices(used, b, k);
        lemma_int_range(0, len as int);
        assert(hits.subset_of(set_int_range(0, len as int)));
        lemma_len_subset(hits, set_int_range(0, len as int));
    }
    if len + 2 < pow10(20) {
        lemma_candidate_valid(raw, k);
    }
}

/// Adding a name that is not in use keeps the names distinct.
pub proof fn lemma_distinct_push(used: Seq<Seq<char>>, name: Seq<char>)
    requires
        names_distinct(used),
        !name_in_use(used, name),
    ensures
        names_distinct(used.push(name)),
{
    let nv = used.push(name);
    assert forall|i: int, j: int|
        0 <= i < nv.len() && 0 <= j < nv.len() && i != j implies !eq_ignore_ascii_case(
        #[trigger] nv[i],
        #[trigger] nv[j],
    ) by {
        if i == used.len() {
            assert(nv[j] == used[j]);
            if eq_ignore_ascii_case(nv[i], nv[j]) {
                lemma_eq_ignore_trans(nv[i], nv[i], nv[j]);
                lemma_eq_ignore_trans(nv[i], nv[j], nv[i]);
            }
        } else if j == used.len() {
            assert(nv[i] == used[i]);
        } else {
            assert(nv[i] == used[i] && nv[j] == used[j]);
        }
    }
}

/// The wanted sheet name for a table called `raw`, as characters.
fn base_sheet_chars(raw: &str) -> (r: Vec<char>)
    ensures
        r@ == base_sheet_name(raw@),
{
    let chars = chars_of(raw);
    let mut s: Vec<char> = Vec::new();
    let mut i: usize = 0;
    while i < chars.len()
        invariant
            i <= chars@.len(),
            s@.len() == i,
            forall|j: int|
                0 <= j < i ==> s@[j] == (if is_forbidden_sheet_char(chars@[j]) {
                    '_'
                } else {
                    chars@[j]
                }),
        decreases chars.len() - i,
    {
        let c = chars[i];
        if c == '\\' || c == '/' || c == '?' || c == '*' || c == '[' || c == ']' || c == ':' {
            s.push('_');
        } else {
            s.push(c);
        }
        i += 1;
    }
    assert(s@ =~= sanitize_sheet_name(raw@));
    let mut blank = true;
    let mut k: usize = 0;
    while k < s.len()
        invariant
            k <= s@.len(),
            blank == all_white_space(s@.take(k as int)),
        decreases s.len() - k,
    {
        let w = char_is_white_space(s[k]);
        proof {
            let t0 = s@.take(k as int);
            let t1 = s@.take(k + 1);
            assert(t1 =~= t0.push(s@[k as int]));
            if w && all_white_space(t0) {
                assert forall|i: int| 0 <= i < t1.len() implies crate::text::is_white_space(
                    #[trigger] t1[i],
                ) by {
                    if i < k {
                        assert(t1[i] == t0[i]);
                    }
                }
            }
            if !w {
                assert(!crate::text::is_white_space(t1[k as int]));
            }
            if !all_white_space(t0) {
                let i = choose|i: int| 0 <= i < t0.len() && !crate::text::is_white_space(t0[i]);
                assert(t1[i] == t0[i]);
            }
        }
        if !w {
            blank = false;
        }
        k += 1;
    }
    assert(s@.take(s@.len() as int) =~= s@);
    let mut name = if blank {
        let mut d: Vec<char> = Vec::new();
        d.push('S');
        d.push('h');
        d.push('e');
        d.push('e');
        d.push('t');
        assert(d@ =~= default_sheet_name());
        d
    } else {
        s
    };
    if name.len() > MAX_SHEET_NAME_CHARS {
        name.truncate(MAX_SHEET_NAME_CHARS);
    }
    name
}

/// Appends `src[lo..hi]` to `out`.
fn push_range(out: &mut Vec<char>, src: &Vec<char>, lo: usize, hi: usize)
    requires
        lo <= hi <= src@.len(),
    ensures
        final(out)@ == old(out)@ + src@.subrange(lo as int, hi as int),
{
    let mut i = lo;
    while i < hi
        invariant
            lo <= i <= hi <= src@.len(),
            out@ == old(out)@ + src@.subrange(lo as int, i as int),
        decreases hi - i,
    {
        out.push(src[i]);
        assert(src@.subrange(lo as int, i + 1) =~= src@.subrange(lo as int, i as int).push(
            src@[i as int],
        ));
        assert(old(out)@ + src@.subrange(lo as int, i + 1) =~= (old(out)@ + src@.subrange(
            lo as int,
            i as int,
        )).push(src@[i as int]));
        i += 1;
    }
}

/// The `n`-th candidate for `name`, `n >= 2`.
fn candidate_chars(name: &Vec<char>, n: u128) -> (r: Vec<char>)
    requires
        n >= 2,
    ensures
        r@ == sheet_candidate(name@, n as nat),
{
    let digits = decimal_chars(n);
    proof {
        assert(n < pow10(39)) by {
            reveal_with_fuel(pow10, 40);
        }
        lemma_decimal_len_bound(n as nat, 39);
    }
    let suffix_len = digits.len() + 1;
    let keep = MAX_SHEET_NAME_CHARS.saturating_sub(suffix_len);
    let take = if keep < name.len() {
        keep
    } else {
        name.len()
    };
    let mut out: Vec<char> = Vec::new();
    push_range(&mut out, name, 0, take);
    out.push('_');
    push_range(&mut out, &digits, 0, digits.len());
    assert(digits@.subrange(0, digits@.len() as int) =~= digits@);
    assert(out@ =~= sheet_candidate(name@, n as nat));
    out
}

fn fold_exec(c: char) -> (r: u32)
    ensures
        r == ascii_fold(c),
{
    let u = c as u32;
    if 65 <= u && u <= 90 {
        u + 32
    } else {
        u
    }
}

fn eq_ignore_case_exec(a: &Vec<char>, b: &Vec<char>) -> (r: bool)
    ensures
        r == eq_ignore_ascii_case(a@, b@),
{
    if a.len() != b.len() {
        return false;
    }
    let mut i: usize = 0;
    while i < a.len()
        invariant
            a@.len() == b@.len(),
            i <= a@.len(),
            forall|j: int| 0 <= j < i ==> ascii_fold(a@[j]) == ascii_fold(b@[j]),
        decreases a.len() - i,
    {
        if fold_exec(a[i]) != fold_exec(b[i]) {
            return false;
        }
        i += 1;
    }
    true
}

fn in_use_exec(used: &Vec<String>, c: &Vec<char>) -> (r: bool)
    ensures
        r == name_in_use(used.deep_view(), c@),
{
    let mut i: usize = 0;
    while i < used.len()
        invariant
            i <= used@.len(),
            forall|j: int| 0 <= j < i ==> !eq_ignore_ascii_case(#[trigger] used.deep_view()[j], c@),
        decreases used.len() - i,
    {
        let u = chars_of(used[i].as_str());
        if eq_ignore_case_exec(&u, c) {
            assert(used.deep_view()[i as int] == u@);
            return true;
        }
        i += 1;
    }
    false
}

/// Turns a table name into a valid, unique Excel sheet name and records it
/// in `used`.
pub fn unique_sheet_name(raw: &str, used: &mut Vec<String>) -> (name: String)
    ensures
        exists|k: nat|
            #![trigger sheet_candidate(base_sheet_name(raw@), k)]
            1 <= k <= old(used)@.len() + 2 && name@ == sheet_candidate(base_sheet_name(raw@), k)
                && !name_in_use(old(used).deep_view(), name@) && forall|m: nat|
                1 <= m < k ==> name_in_use(
                    old(used).deep_view(),
                    #[trigger] sheet_candidate(base_sheet_name(raw@), m),
                ),
        name@ == unique_sheet_name_for(raw@, old(used).deep_view()),
        final(used).deep_view() == old(used).deep_view().push(name@),
        valid_sheet_name(name@),
        !name_in_use(old(used).deep_view(), name@),
        names_distinct(old(used).deep_view()) ==> names_distinct(final(used).deep_view()),
{
    let base = base_sheet_chars(raw);
    let ghost b = base@;
    let mut candidate: Vec<char> = Vec::new();
    push_range(&mut candidate, &base, 0, base.len());
    assert(base@.subrange(0, base@.len() as int) =~= base@);
    let mut n: u128 = 2;
    let ghost mut hit: Set<int> = Set::empty();
    let ghost uv = used.deep_view();
    let used_len = used.len();
    assert(uv.len() == used_len);
    while in_use_exec(used, &candidate)
        invariant
            uv == used.deep_view(),
            uv.len() <= usize::MAX,
            b == base_sheet_name(raw@),
            base@ == b,
            2 <= n <= uv.len() + 3,
            candidate@ == sheet_candidate(b, (n - 1) as nat),
            forall|m: nat| 1 <= m < n - 1 ==> name_in_use(uv, #[trigger] sheet_candidate(b, m)),
            hit.finite(),
            n >= 3 ==> hit.len() == n - 3,
            n == 2 ==> hit.len() == 0,
            forall|i: int|
                #[trigger] hit.contains(i) ==> 0 <= i < uv.len() && exists|m: nat|
                    2 <= m < n - 1 && eq_ignore_ascii_case(uv[i], #[trigger] sheet_candidate(b, m)),
        decreases uv.len() + 3 - n,
    {
        proof {
            let k = (n - 1) as nat;
            let j = choose|j: int| 0 <= j < uv.len() && eq_ignore_ascii_case(#[trigger] uv[j], candidate@);
            if k >= 2 {
                if hit.contains(j) {
                    let m = choose|m: nat|
                        2 <= m < n - 1 && eq_ignore_ascii_case(uv[j], #[trigger] sheet_candidate(b, m));
                    lemma_eq_ignore_trans(uv[j], sheet_candidate(b, m), candidate@);
                    lemma_candidates_distinct(b, m, k);
                }
                hit = hit.insert(j);
            }
            lemma_int_range(0, uv.len() as int);
            assert(hit.subset_of(set_int_range(0, uv.len() as int)));
            lemma_len_subset(hit, set_int_range(0, uv.len() as int));
        }
        candidate = candidate_chars(&base, n);
        n = n + 1;
    }
    let name = string_from_range(&candidate, 0, candidate.len());
    assert(candidate@.subrange(0, candidate@.len() as int) =~= candidate@);
    proof {
        let k = (n - 1) as nat;
        assert(k < pow10(20)) by {
            reveal_with_fuel(pow10, 21);
        }
        lemma_candidate_valid(raw@, k);
        lemma_first_free(uv, b, 1, uv.len() + 1, k);
        if names_distinct(uv) {
            lemma_distinct_push(uv, name@);
        }
    }
    let ghost prev = used.deep_view();
    used.push(name.clone());
    assert(used.deep_view() =~= prev.push(name@));
    name
}

} // verus!
