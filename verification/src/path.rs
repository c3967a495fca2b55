//! Names of the on-disk layout: decimal ids and the paths built from them.
//!
//! A topic lives under `<root>/<topic>/`, each of its partitions under
//! `<root>/<topic>/<partition_id>/`, and a segment is the pair of files
//! `<segment_id>.log` and `<segment_id>.index` in its partition's directory.
//! Ids are written in decimal; components are separated by `/`.

use vstd::prelude::*;
use vstd::string::*;

verus! {

/// Whether `c` is one of the ten decimal digits.
pub open spec fn is_digit(c: char) -> bool {
    '0' <= c <= '9'
}

/// The value of a decimal digit.
pub open spec fn digit_value(c: char) -> nat
    recommends
        is_digit(c),
{
    (c as int - '0' as int) as nat
}

/// The character that stands for a digit below ten.
pub open spec fn digit_char(d: nat) -> char
    recommends
        d < 10,
{
    ('0' as int + d) as char
}

/// The decimal form of `n`, without sign or leading zeros.
pub open spec fn decimal(n: nat) -> Seq<char>
    decreases n,
{
    if n < 10 {
        seq![digit_char(n)]
    } else {
        decimal(n / 10).push(digit_char(n % 10))
    }
}

/// Whether every character of `s` is a decimal digit.
pub open spec fn all_digits(s: Seq<char>) -> bool {
    forall|i: int| 0 <= i < s.len() ==> is_digit(#[trigger] s[i])
}

/// The number that a run of decimal digits denotes; leading zeros count for
/// nothing and the empty run denotes 0.
pub open spec fn digits_value(s: Seq<char>) -> nat
    decreases s.len(),
{
    if s.len() == 0 {
        0
    } else {
        digits_value(s.drop_last()) * 10 + digit_value(s.last())
    }
}

/// `s` without one leading `+`, if it has one.
pub open spec fn unsigned_part(s: Seq<char>) -> Seq<char> {
    if s.len() > 0 && s[0] == '+' {
        s.subrange(1, s.len() as int)
    } else {
        s
    }
}

/// The id that a name denotes: an optional `+`, then one or more decimal
/// digits whose value fits in 64 bits. Any other name denotes none.
pub open spec fn decimal_value(s: Seq<char>) -> Option<u64> {
    let digits = unsigned_part(s);
    if digits.len() > 0 && all_digits(digits) && digits_value(digits) <= u64::MAX {
        Some(digits_value(digits) as u64)
    } else {
        None
    }
}

fn digit_str(d: u64) -> (s: &'static str)
    requires
        d < 10,
    ensures
        s@ == seq![digit_char(d as nat)],
{
    proof {
        reveal_strlit("0");
        reveal_strlit("1");
        reveal_strlit("2");
        reveal_strlit("3");
        reveal_strlit("4");
        reveal_strlit("5");
        reveal_strlit("6");
        reveal_strlit("7");
        reveal_strlit("8");
        reveal_strlit("9");
    }
    let s = if d == 0 {
        "0"
    } else if d == 1 {
        "1"
    } else if d == 2 {
        "2"
    } else if d == 3 {
        "3"
    } else if d == 4 {
        "4"
    } else if d == 5 {
        "5"
    } else if d == 6 {
        "6"
    } else if d == 7 {
        "7"
    } else if d == 8 {
        "8"
    } else {
        "9"
    };
    s
}

/// Writes `n` in decimal.
pub fn format_u64(n: u64) -> (s: String)
    ensures
        s@ == decimal(n as nat),
    decreases n,
{
    if n < 10 {
        String::from_str(digit_str(n))
    } else {
        let mut s = format_u64(n / 10);
        s.append(digit_str(n % 10));
        s
    }
}

/// The value of a run of digits is at least the value of each of its prefixes.
proof fn lemma_digits_value_prefix(s: Seq<char>, k: int)
    requires
        0 <= k <= s.len(),
    ensures
        digits_value(s.subrange(0, k)) <= digits_value(s),
    decreases s.len() - k,
{
    if k == s.len() {
        assert(s.subrange(0, k) =~= s);
    } else {
        lemma_digits_value_prefix(s.drop_last(), k);
        assert(s.drop_last().subrange(0, k) =~= s.subrange(0, k));
    }
}

/// Reads an id from a name; `None` when the name does not denote one.
pub fn parse_u64(s: &str) -> (id: Option<u64>)
    ensures
        id == decimal_value(s@),
{
    let n = s.unicode_len();
    let start: usize = if n > 0 && s.get_char(0) == '+' {
        1
    } else {
        0
    };
    if start == n {
        return None;
    }
    let ghost digits = unsigned_part(s@);
    let mut value: u64 = 0;
    let mut i: usize = start;
    while i < n
        invariant
            start <= i <= n,
            n == s@.len(),
            digits == unsigned_part(s@),
            digits == s@.subrange(start as int, n as int),
            all_digits(digits.subrange(0, i - start)),
            value == digits_value(digits.subrange(0, i - start)),
        decreases n - i,
    {
        let c = s.get_char(i);
        if !('0' <= c && c <= '9') {
            assert(!is_digit(digits[i - start]));
            return None;
        }
        let d: u64 = (c as u32 - '0' as u32) as u64;
        let ghost longer = digits.subrange(0, i - start + 1);
        assert(longer.drop_last() =~= digits.subrange(0, i - start));
        if value > (u64::MAX - d) / 10 {
            proof {
                lemma_digits_value_prefix(digits, i - start + 1);
            }
            return None;
        }
        value = value * 10 + d;
        i = i + 1;
    }
    assert(digits.subrange(0, n - start) =~= digits);
    Some(value)
}

/// Every id reads back from its decimal form.
pub proof fn lemma_decimal_round_trip(n: u64)
    ensures
        decimal(n as nat).len() > 0,
        all_digits(decimal(n as nat)),
        decimal_value(decimal(n as nat)) == Some(n),
{
    lemma_decimal_digits(n as nat);
}

/// The decimal form of a number is a non-empty run of digits that denotes it.
pub proof fn lemma_decimal_digits(n: nat)
    ensures
        decimal(n).len() > 0,
        all_digits(decimal(n)),
        digits_value(decimal(n)) == n,
        unsigned_part(decimal(n)) == decimal(n),
    decreases n,
{
    if n < 10 {
        let s = decimal(n);
        assert(digits_value(s.drop_last()) == 0);
    } else {
        lemma_decimal_digits(n / 10);
        let front = decimal(n / 10);
        let s = decimal(n);
        assert(s.drop_last() =~= front);
        assert forall|i: int| 0 <= i < s.len() implies is_digit(#[trigger] s[i]) by {}
    }
}

/// The last place at which `c` stands in `s`, or -1 when it stands nowhere.
pub open spec fn last_index_of(s: Seq<char>, c: char) -> int
    decreases s.len(),
{
    if s.len() == 0 {
        -1
    } else if s.last() == c {
        s.len() - 1
    } else {
        last_index_of(s.drop_last(), c)
    }
}

/// The last component of a path: what follows its last `/`.
pub open spec fn file_name_of(path: Seq<char>) -> Seq<char> {
    path.subrange(last_index_of(path, '/') + 1, path.len() as int)
}

/// The last component of a path without its extension: what stands before
/// the last `.` of the component. A component with no `.`, or with its only
/// `.` in front, is its own stem.
pub open spec fn stem_of(path: Seq<char>) -> Seq<char> {
    let name = file_name_of(path);
    let dot = last_index_of(name, '.');
    if dot > 0 {
        name.subrange(0, dot)
    } else {
        name
    }
}

/// The directory part of a path: what stands before its last `/`. A path
/// without `/` has the empty parent; one whose only `/` is in front has `/`.
pub open spec fn parent_of(path: Seq<char>) -> Seq<char> {
    let slash = last_index_of(path, '/');
    if slash < 0 {
        Seq::empty()
    } else if slash == 0 {
        path.subrange(0, 1)
    } else {
        path.subrange(0, slash)
    }
}

/// `name` placed under the directory `base`. The empty base stands for the
/// current directory and adds nothing.
pub open spec fn joined(base: Seq<char>, name: Seq<char>) -> Seq<char> {
    if base.len() == 0 {
        name
    } else if base.last() == '/' {
        base + name
    } else {
        base + seq!['/'] + name
    }
}

/// Whether `c` stands nowhere in `s`.
pub open spec fn free_of(s: Seq<char>, c: char) -> bool {
    forall|i: int| 0 <= i < s.len() ==> #[trigger] s[i] != c
}

/// `last_index_of` names a place of `c` after which `c` stands no more.
pub proof fn lemma_last_index_of(s: Seq<char>, c: char)
    ensures
        -1 <= last_index_of(s, c) < s.len(),
        last_index_of(s, c) >= 0 ==> s[last_index_of(s, c)] == c,
        forall|j: int| last_index_of(s, c) < j < s.len() ==> #[trigger] s[j] != c,
    decreases s.len(),
{
    if s.len() > 0 && s.last() != c {
        lemma_last_index_of(s.drop_last(), c);
        assert forall|j: int| last_index_of(s, c) < j < s.len() implies #[trigger] s[j] != c by {
            if j < s.len() - 1 {
                assert(s.drop_last()[j] != c);
            }
        }
    }
}

/// A place of `c` after which `c` stands no more is the last one.
pub proof fn lemma_last_index_is(s: Seq<char>, c: char, k: int)
    requires
        -1 <= k < s.len(),
        k >= 0 ==> s[k] == c,
        forall|j: int| k < j < s.len() ==> #[trigger] s[j] != c,
    ensures
        last_index_of(s, c) == k,
    decreases s.len(),
{
    if s.len() > 0 && k < s.len() - 1 {
        lemma_last_index_is(s.drop_last(), c, k);
    }
}

fn find_last(s: &str, c: char) -> (found: Option<usize>)
    ensures
        found matches Some(k) ==> k == last_index_of(s@, c),
        found is None ==> last_index_of(s@, c) == -1,
{
    let n = s.unicode_len();
    let mut found: Option<usize> = None;
    let mut i: usize = 0;
    while i < n
        invariant
            i <= n,
            n == s@.len(),
            found matches Some(k) ==> k == last_index_of(s@.subrange(0, i as int), c),
            found is None ==> last_index_of(s@.subrange(0, i as int), c) == -1,
        decreases n - i,
    {
        assert(s@.subrange(0, i + 1).drop_last() =~= s@.subrange(0, i as int));
        if s.get_char(i) == c {
            found = Some(i);
        }
        i = i + 1;
    }
    assert(s@.subrange(0, n as int) =~= s@);
    found
}

/// The last component of `path` without its extension.
pub fn file_stem(path: &str) -> (stem: &str)
    ensures
        stem@ == stem_of(path@),
{
    let n = path.unicode_len();
    proof {
        lemma_last_index_of(path@, '/');
    }
    let start: usize = match find_last(path, '/') {
        Some(k) => k + 1,
        None => 0,
    };
    let name = path.substring_char(start, n);
    proof {
        lemma_last_index_of(name@, '.');
    }
    match find_last(name, '.') {
        Some(dot) => if dot > 0 {
            name.substring_char(0, dot)
        } else {
            name
        },
        None => name,
    }
}

/// The directory part of `path`.
pub fn parent_dir(path: &str) -> (dir: &str)
    ensures
        dir@ == parent_of(path@),
{
    proof {
        lemma_last_index_of(path@, '/');
    }
    match find_last(path, '/') {
        Some(k) => if k == 0 {
            path.substring_char(0, 1)
        } else {
            path.substring_char(0, k)
        },
        None => path.substring_char(0, 0),
    }
}

/// The path of `name` under the directory `base`.
pub fn join_path(base: &str, name: &str) -> (path: String)
    ensures
        path@ == joined(base@, name@),
{
    let n = base.unicode_len();
    if n == 0 {
        return String::from_str(name);
    }
    let mut path = String::from_str(base);
    if base.get_char(n - 1) != '/' {
        proof {
            reveal_strlit("/");
        }
        path.append("/");
    }
    path.append(name);
    path
}

/// The name of the data file of segment `id`.
pub open spec fn log_name(id: u64) -> Seq<char> {
    decimal(id as nat) + ".log"@
}

/// The name of the index file of segment `id`.
pub open spec fn index_name(id: u64) -> Seq<char> {
    decimal(id as nat) + ".index"@
}

/// The name of the data file of segment `id`.
pub fn log_file_name(id: u64) -> (name: String)
    ensures
        name@ == log_name(id),
{
    let mut name = format_u64(id);
    name.append(".log");
    name
}

/// The name of the index file of segment `id`.
pub fn index_file_name(id: u64) -> (name: String)
    ensures
        name@ == index_name(id),
{
    let mut name = format_u64(id);
    name.append(".index");
    name
}

/// A name without `/` that is placed under a directory is the last
/// component of the path, and the directory is found again as its parent:
/// another name placed under that parent lies beside the first.
pub proof fn lemma_joined_parts(base: Seq<char>, name: Seq<char>, other: Seq<char>)
    requires
        free_of(name, '/'),
        base.len() > 0 ==> base.last() != '/',
    ensures
        file_name_of(joined(base, name)) == name,
        joined(parent_of(joined(base, name)), other) == joined(base, other),
{
    let path = joined(base, name);
    if base.len() == 0 {
        lemma_last_index_is(path, '/', -1);
    } else {
        let k = base.len() as int;
        assert forall|j: int| k < j < path.len() implies #[trigger] path[j] != '/' by {}
        lemma_last_index_is(path, '/', k);
    }
}

/// The names of the two files of a segment, placed under a directory, lead
/// back to the segment: the stem of the data file's path denotes the id,
/// and the index file named after the id lies beside the data file.
pub proof fn lemma_segment_paths(dir: Seq<char>, id: u64)
    requires
        dir.len() > 0 ==> dir.last() != '/',
    ensures
        stem_of(joined(dir, log_name(id))) == decimal(id as nat),
        decimal_value(stem_of(joined(dir, log_name(id)))) == Some(id),
        joined(parent_of(joined(dir, log_name(id))), index_name(id)) == joined(
            dir,
            index_name(id),
        ),
{
    reveal_strlit(".log");
    let digits = decimal(id as nat);
    let name = log_name(id);
    lemma_decimal_round_trip(id);
    let n = digits.len() as int;
    assert forall|i: int| 0 <= i < name.len() implies #[trigger] name[i] != '/' by {}
    lemma_joined_parts(dir, name, index_name(id));
    assert forall|j: int| n < j < name.len() implies #[trigger] name[j] != '.' by {}
    lemma_last_index_is(name, '.', n);
    assert(name.subrange(0, n) =~= digits);
}

/// A name placed under a directory ends as the name ends.
pub proof fn lemma_joined_last(base: Seq<char>, name: Seq<char>)
    requires
        name.len() > 0,
    ensures
        joined(base, name).len() > 0,
        joined(base, name).last() == name.last(),
{
}

} // verus!
