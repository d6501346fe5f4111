//! Naming rules on file names: which files are `.xer` files, which folder
//! the output of a file goes to, and what each table's CSV file is called.
//!
//! File names are handled as the last component of a path, converted
//! lossily to text; the rules follow `Path::extension` and `Path::file_stem`
//! (the part after / before the last `.`, where a leading `.` does not
//! count and `..` has neither).

use vstd::prelude::*;
use crate::sheet_name::{ascii_fold, eq_ignore_ascii_case};
use crate::text::{chars_of, string_from_range};

verus! {

/// The index of the last `.` in `s`, or -1.
pub open spec fn last_dot(s: Seq<char>) -> int
    decreases s.len(),
{
    if s.len() == 0 {
        -1
    } else if s.last() == '.' {
        s.len() - 1
    } else {
        last_dot(s.drop_last())
    }
}

/// `s` is the file name `..`.
pub open spec fn is_parent_name(s: Seq<char>) -> bool {
    s.len() == 2 && s[0] == '.' && s[1] == '.'
}

/// The extension of a file name: what follows its last `.`, provided that
/// `.` is not the first character and the name is not `..`.
pub open spec fn extension_of(name: Seq<char>) -> Option<Seq<char>> {
    let i = last_dot(name);
    if is_parent_name(name) || i <= 0 {
        None
    } else {
        Some(name.skip(i + 1))
    }
}

/// The stem of a file name: what precedes its last `.`, or the whole name
/// when it has no extension.
pub open spec fn stem_of(name: Seq<char>) -> Seq<char> {
    let i = last_dot(name);
    if is_parent_name(name) || i <= 0 {
        name
    } else {
        name.take(i)
    }
}

/// The three characters `xer`.
pub open spec fn xer_chars() -> Seq<char> {
    seq!['x', 'e', 'r']
}

/// The file name has the extension `xer`, in any ASCII case.
pub open spec fn is_xer_name(name: Seq<char>) -> bool {
    match extension_of(name) {
        Some(e) => eq_ignore_ascii_case(e, xer_chars()),
        None => false,
    }
}

/// The index of the last `.` of `chars`, or `None`.
fn find_last_dot(chars: &Vec<char>) -> (r: Option<usize>)
    ensures
        match r {
            Some(i) => i as int == last_dot(chars@) && i < chars@.len() && chars@[i as int] == '.',
            None => last_dot(chars@) == -1,
        },
{
    let mut i = chars.len();
    assert(chars@.take(i as int) =~= chars@);
    while i > 0
        invariant
            i <= chars@.len(),
            forall|j: int| i <= j < chars@.len() ==> chars@[j] != '.',
            last_dot(chars@) == last_dot(chars@.take(i as int)),
        decreases i,
    {
        let ghost t = chars@.take(i as int);
        assert(t.drop_last() =~= chars@.take(i - 1));
        if chars[i - 1] == '.' {
            return Some(i - 1);
        }
        i -= 1;
    }
    None
}

/// Whether a file name ends in `.xer`, ignoring ASCII case (so `a.XER`
/// counts, while `.xer` alone and `a.xer2` do not).
pub fn has_xer_extension(file_name: &str) -> (r: bool)
    ensures
        r == is_xer_name(file_name@),
{
    let chars = chars_of(file_name);
    let n = chars.len();
    let parent = n == 2 && chars[0] == '.' && chars[1] == '.';
    match find_last_dot(&chars) {
        Some(i) => {
            if parent || i == 0 {
                return false;
            }
            let ghost e = chars@.skip(i + 1);
            if n - (i + 1) != 3 {
                return false;
            }
            let c0 = chars[i + 1] as u32;
            let c1 = chars[i + 2] as u32;
            let c2 = chars[i + 3] as u32;
            let r = (c0 == 120 || c0 == 88) && (c1 == 101 || c1 == 69) && (c2 == 114 || c2 == 82);
            proof {
                let x = xer_chars();
                assert(e[0] == chars@[i + 1] && e[1] == chars@[i + 2] && e[2] == chars@[i + 3]);
                assert(x[0] == 'x' && x[1] == 'e' && x[2] == 'r');
                if r {
                    assert forall|k: int| 0 <= k < e.len() implies ascii_fold(e[k]) == ascii_fold(
                        x[k],
                    ) by {
                        if k == 0 {
                        } else if k == 1 {
                        } else {
                        }
                    }
                } else {
                    if eq_ignore_ascii_case(e, x) {
                        assert(ascii_fold(e[0]) == ascii_fold(x[0]));
                        assert(ascii_fold(e[1]) == ascii_fold(x[1]));
                        assert(ascii_fold(e[2]) == ascii_fold(x[2]));
                    }
                }
            }
            r
        },
        None => false,
    }
}

/// The stem of a file name (see [`stem_of`]).
pub fn file_stem(file_name: &str) -> (r: String)
    ensures
        r@ == stem_of(file_name@),
{
    let chars = chars_of(file_name);
    let n = chars.len();
    let parent = n == 2 && chars[0] == '.' && chars[1] == '.';
    match find_last_dot(&chars) {
        Some(i) => {
            if parent || i == 0 {
                let r = string_from_range(&chars, 0, n);
                assert(chars@.subrange(0, n as int) =~= chars@);
                r
            } else {
                let r = string_from_range(&chars, 0, i);
                assert(chars@.subrange(0, i as int) =~= chars@.take(i as int));
                r
            }
        },
        None => {
            let r = string_from_range(&chars, 0, n);
            assert(chars@.subrange(0, n as int) =~= chars@);
            r
        },
    }
}

/// The name of the output folder for an input file: the stem of its file
/// name, or `output` when the path has no file name.
pub open spec fn output_folder_name(file_name: Option<Seq<char>>) -> Seq<char> {
    match file_name {
        Some(n) => stem_of(n),
        None => seq!['o', 'u', 't', 'p', 'u', 't'],
    }
}

/// The output folder name for an input file (see [`output_folder_name`]).
pub fn output_base_name(file_name: Option<&str>) -> (r: String)
    ensures
        r@ == output_folder_name(
            match file_name {
                Some(n) => Some(n@),
                None => None,
            },
        ),
{
    match file_name {
        Some(n) => file_stem(n),
        None => {
            let mut v: Vec<char> = Vec::new();
            v.push('o');
            v.push('u');
            v.push('t');
            v.push('p');
            v.push('u');
            v.push('t');
            let r = string_from_range(&v, 0, 6);
            assert(v@.subrange(0, 6) =~= seq!['o', 'u', 't', 'p', 'u', 't']);
            r
        },
    }
}

/// The CSV file name of a table: its name with every space replaced by `_`,
/// followed by `.csv`.
pub open spec fn csv_name_of(table_name: Seq<char>) -> Seq<char> {
    table_name.map_values(|c: char| if c == ' ' { '_' } else { c }) + seq!['.', 'c', 's', 'v']
}

/// The CSV file name of a table (see [`csv_name_of`]).
pub fn csv_file_name(table_name: &str) -> (r: String)
    ensures
        r@ == csv_name_of(table_name@),
{
    let chars = chars_of(table_name);
    let mut out: Vec<char> = Vec::new();
    let mut i: usize = 0;
    while i < chars.len()
        invariant
            i <= chars@.len(),
            out@.len() == i,
            forall|j: int|
                0 <= j < i ==> out@[j] == (if chars@[j] == ' ' {
                    '_'
                } else {
                    chars@[j]
                }),
        decreases chars.len() - i,
    {
        let c = chars[i];
        out.push(if c == ' ' { '_' } else { c });
        i += 1;
    }
    out.push('.');
    out.push('c');
    out.push('s');
    out.push('v');
    assert(out@ =~= csv_name_of(table_name@));
    string_from_range(&out, 0, out.len())
}


/// The file name of the master workbook of an input file: its output
/// folder name followed by `.xlsx`.
pub fn workbook_file_name(base_name: &str) -> (r: String)
    ensures
        r@ == base_name@ + seq!['.', 'x', 'l', 's', 'x'],
{
    let chars = chars_of(base_name);
    let mut out: Vec<char> = Vec::new();
    let mut i: usize = 0;
    while i < chars.len()
        invariant
            i <= chars@.len(),
            out@ == chars@.take(i as int),
        decreases chars.len() - i,
    {
        out.push(chars[i]);
        assert(chars@.take(i + 1) =~= chars@.take(i as int).push(chars@[i as int]));
        i += 1;
    }
    out.push('.');
    out.push('x');
    out.push('l');
    out.push('s');
    out.push('x');
    assert(chars@.take(chars@.len() as int) =~= chars@);
    assert(out@ =~= base_name@ + seq!['.', 'x', 'l', 's', 'x']);
    string_from_range(&out, 0, out.len())
}


/// The last `.` of `s` is at `i` when `s[i]` is a `.` and none follows it.
proof fn lemma_last_dot_at(s: Seq<char>, i: int)
    requires
        0 <= i < s.len(),
        s[i] == '.',
        forall|j: int| i < j < s.len() ==> s[j] != '.',
    ensures
        last_dot(s) == i,
    decreases s.len(),
{
    if s.len() - 1 != i {
        assert(s.drop_last()[i] == '.');
        lemma_last_dot_at(s.drop_last(), i);
    }
}

/// Without any `.`, `s` has no last `.`; and a last `.` is always a `.`
/// with none after it.
proof fn lemma_last_dot_bounds(s: Seq<char>)
    ensures
        -1 <= last_dot(s) < s.len(),
        last_dot(s) >= 0 ==> s[last_dot(s)] == '.',
        forall|j: int| last_dot(s) < j < s.len() ==> s[j] != '.',
    decreases s.len(),
{
    if s.len() > 0 {
        lemma_last_dot_bounds(s.drop_last());
        if s.last() != '.' {
            assert forall|j: int| last_dot(s) < j < s.len() implies s[j] != '.' by {
                if j < s.len() - 1 {
                    assert(s.drop_last()[j] == s[j]);
                }
            }
        }
    }
}

proof fn lemma_fold_letter(c: char, lower: char, upper: char)
    requires
        97 <= lower as u32 <= 122,
        upper as u32 == lower as u32 - 32,
        ascii_fold(c) == ascii_fold(lower),
    ensures
        c == lower || c == upper,
{
    vstd::utf8::char_u32_cast(c, c as u32);
}

/// A file name is an `.xer` name exactly when it ends with `.xer` in any
/// ASCII case after at least one character (so `PROJECT.XER` and `a.Xer`
/// count, while `.xer`, `a.xer2` and `a.xe` do not).
pub proof fn law_xer_names_are_the_dot_xer_endings(name: Seq<char>)
    ensures
        is_xer_name(name) <==> {
            let n = name.len() as int;
            &&& n >= 5
            &&& name[n - 4] == '.'
            &&& (name[n - 3] == 'x' || name[n - 3] == 'X')
            &&& (name[n - 2] == 'e' || name[n - 2] == 'E')
            &&& (name[n - 1] == 'r' || name[n - 1] == 'R')
        },
{
    let n = name.len() as int;
    lemma_last_dot_bounds(name);
    let i = last_dot(name);
    let x = xer_chars();
    assert(x[0] == 'x' && x[1] == 'e' && x[2] == 'r');
    if is_xer_name(name) {
        let e = name.skip(i + 1);
        assert(e.len() == 3);
        assert(ascii_fold(e[0]) == ascii_fold(x[0]));
        assert(ascii_fold(e[1]) == ascii_fold(x[1]));
        assert(ascii_fold(e[2]) == ascii_fold(x[2]));
        assert(i == n - 4);
        assert(e[0] == name[n - 3] && e[1] == name[n - 2] && e[2] == name[n - 1]);
        lemma_fold_letter(name[n - 3], 'x', 'X');
        lemma_fold_letter(name[n - 2], 'e', 'E');
        lemma_fold_letter(name[n - 1], 'r', 'R');
    }
    if n >= 5 && name[n - 4] == '.' && (name[n - 3] == 'x' || name[n - 3] == 'X') && (name[n - 2]
        == 'e' || name[n - 2] == 'E') && (name[n - 1] == 'r' || name[n - 1] == 'R') {
        lemma_last_dot_at(name, n - 4);
        let e = name.skip(n - 3);
        assert(e[0] == name[n - 3] && e[1] == name[n - 2] && e[2] == name[n - 1]);
        assert forall|k: int| 0 <= k < e.len() implies ascii_fold(e[k]) == ascii_fold(x[k]) by {
            if k == 0 {
            } else if k == 1 {
            } else {
            }
        }
    }
}

/// The stem of a file name is the name up to its last `.`, whatever the
/// extension, when that `.` is not the first character and the name is not
/// `..`: the stem, a `.` and the extension make up the name again.
pub proof fn law_stem_is_the_name_before_the_last_dot(name: Seq<char>, i: int)
    requires
        0 < i < name.len(),
        name[i] == '.',
        forall|j: int| i < j < name.len() ==> name[j] != '.',
        !is_parent_name(name),
    ensures
        stem_of(name) == name.take(i),
        extension_of(name) == Some(name.skip(i + 1)),
        stem_of(name) + seq!['.'] + name.skip(i + 1) == name,
{
    lemma_last_dot_at(name, i);
    assert(name.take(i) + seq!['.'] + name.skip(i + 1) =~= name);
}

/// A file name whose only `.`, if any, is its first character is its own
/// stem, and has no extension.
pub proof fn law_stem_without_dot_is_the_name(name: Seq<char>)
    requires
        forall|j: int| 0 < j < name.len() ==> name[j] != '.',
    ensures
        stem_of(name) == name,
        extension_of(name) is None,
{
    lemma_last_dot_bounds(name);
}

/// The CSV file name keeps the whole table name: one character per
/// character of the name, a space becoming `_` and every other character
/// kept, followed by `.csv`.
pub proof fn law_csv_name_keeps_the_table_name(table_name: Seq<char>)
    ensures
        csv_name_of(table_name).len() == table_name.len() + 4,
        forall|i: int|
            0 <= i < table_name.len() ==> #[trigger] csv_name_of(table_name)[i] == if table_name[i]
                == ' ' {
                '_'
            } else {
                table_name[i]
            },
        csv_name_of(table_name).skip(table_name.len() as int) == seq!['.', 'c', 's', 'v'],
{
    let r = csv_name_of(table_name);
    assert(r.skip(table_name.len() as int) =~= seq!['.', 'c', 's', 'v']);
}
} // verus!
