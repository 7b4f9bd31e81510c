use std::path::PathBuf;
use vstd::prelude::*;
use vstd::string::*;

verus! {

/// The character of the decimal digit `d`.
pub open spec fn digit_char(d: int) -> char {
    if d == 0 {
        '0'
    } else if d == 1 {
        '1'
    } else if d == 2 {
        '2'
    } else if d == 3 {
        '3'
    } else if d == 4 {
        '4'
    } else if d == 5 {
        '5'
    } else if d == 6 {
        '6'
    } else if d == 7 {
        '7'
    } else if d == 8 {
        '8'
    } else {
        '9'
    }
}

/// The value of a decimal digit; -1 for any other character.
pub open spec fn digit_value(c: char) -> int {
    if c == '0' {
        0
    } else if c == '1' {
        1
    } else if c == '2' {
        2
    } else if c == '3' {
        3
    } else if c == '4' {
        4
    } else if c == '5' {
        5
    } else if c == '6' {
        6
    } else if c == '7' {
        7
    } else if c == '8' {
        8
    } else if c == '9' {
        9
    } else {
        -1
    }
}

pub open spec fn is_digit(c: char) -> bool {
    digit_value(c) >= 0
}

/// `n` written in decimal, without leading zeros.
pub open spec fn decimal(n: nat) -> Seq<char>
    decreases n,
{
    if n < 10 {
        seq![digit_char(n as int)]
    } else {
        decimal(n / 10).push(digit_char((n % 10) as int))
    }
}

/// The number that a string of decimal digits denotes.
pub open spec fn digits_value(s: Seq<char>) -> int
    decreases s.len(),
{
    if s.len() == 0 {
        0
    } else {
        digits_value(s.drop_last()) * 10 + digit_value(s.last())
    }
}

/// The name of the file of segment `id`: the id in decimal, then `.log`.
pub open spec fn segment_file_name(id: u64) -> Seq<char> {
    decimal(id as nat) + seq!['.', 'l', 'o', 'g']
}

proof fn lemma_decimal(n: nat)
    ensures
        decimal(n).len() >= 1,
        forall|i: int| 0 <= i < decimal(n).len() ==> #[trigger] is_digit(decimal(n)[i]),
        digits_value(decimal(n)) == n,
    decreases n,
{
    let d = decimal(n);
    if n < 10 {
        assert(d.drop_last() =~= Seq::<char>::empty());
        assert(digit_value(digit_char(n as int)) == n);
        assert(digits_value(d) == digits_value(d.drop_last()) * 10 + digit_value(d.last()));
    } else {
        lemma_decimal(n / 10);
        assert(d.drop_last() =~= decimal(n / 10));
        vstd::arithmetic::div_mod::lemma_fundamental_div_mod(n as int, 10);
        assert(0 <= n % 10 < 10);
        assert(d.last() == digit_char((n % 10) as int));
        assert(digit_value(d.last()) == n % 10);
        assert(digits_value(d) == digits_value(d.drop_last()) * 10 + digit_value(d.last()));
    }
}

proof fn lemma_digits_value_prefix(s: Seq<char>, i: int, j: int)
    requires
        0 <= i <= j <= s.len(),
        forall|k: int| 0 <= k < s.len() ==> #[trigger] is_digit(s[k]),
    ensures
        0 <= digits_value(s.take(i)) <= digits_value(s.take(j)),
    decreases j,
{
    if i < j {
        lemma_digits_value_prefix(s, i, j - 1);
        assert(s.take(j).drop_last() =~= s.take(j - 1));
        assert(is_digit(s[j - 1]));
    } else if i == 0 {
        assert(s.take(0) =~= Seq::<char>::empty());
    } else {
        lemma_digits_value_prefix(s, i - 1, i - 1);
        assert(s.take(i).drop_last() =~= s.take(i - 1));
        assert(is_digit(s[i - 1]));
    }
}

/// The value of a decimal digit.
fn digit_of(c: char) -> (r: Option<u64>)
    ensures
        match r {
            Some(d) => is_digit(c) && d == digit_value(c),
            None => !is_digit(c),
        },
{
    if c == '0' {
        Some(0)
    } else if c == '1' {
        Some(1)
    } else if c == '2' {
        Some(2)
    } else if c == '3' {
        Some(3)
    } else if c == '4' {
        Some(4)
    } else if c == '5' {
        Some(5)
    } else if c == '6' {
        Some(6)
    } else if c == '7' {
        Some(7)
    } else if c == '8' {
        Some(8)
    } else if c == '9' {
        Some(9)
    } else {
        None
    }
}

/// The string of one decimal digit.
fn digit_str(d: u64) -> (r: &'static str)
    requires
        d < 10,
    ensures
        r@ == seq![digit_char(d as int)],
{
    proof {
        reveal_strlit("0");
        reveal_strlit("1");
        reveal_strlit("2");
        reveal_strlit("3");
        reveal_strlit("4");
        reveal_strlit("5");
        reveal_strlit("6");
        reveal_strlit("7");
        reveal_strlit("8");
        reveal_strlit("9");
    }
    if d == 0 {
        "0"
    } else if d == 1 {
        "1"
    } else if d == 2 {
        "2"
    } else if d == 3 {
        "3"
    } else if d == 4 {
        "4"
    } else if d == 5 {
        "5"
    } else if d == 6 {
        "6"
    } else if d == 7 {
        "7"
    } else if d == 8 {
        "8"
    } else {
        "9"
    }
}

fn push_decimal(s: &mut String, n: u64)
    ensures
        final(s)@ == old(s)@ + decimal(n as nat),
    decreases n,
{
    if n >= 10 {
        push_decimal(s, n / 10);
    }
    s.append(digit_str(n % 10));
    assert(final(s)@ =~= old(s)@ + decimal(n as nat));
}

/// The name of the file of segment `file_id`.
pub fn log_file_name(file_id: u64) -> (r: String)
    ensures
        r@ == segment_file_name(file_id),
{
    let mut s = String::new();
    push_decimal(&mut s, file_id);
    proof {
        reveal_strlit(".log");
    }
    s.append(".log");
    assert(s@ =~= segment_file_name(file_id));
    s
}

/// The segment id that a file name denotes, if it is the name of a segment
/// file; every other name, `05.log` or `5.LOG` among them, denotes none.
pub fn parse_log_file_name(name: &str) -> (r: Option<u64>)
    ensures
        match r {
            Some(id) => name@ == segment_file_name(id),
            None => forall|id: u64| name@ != #[trigger] segment_file_name(id),
        },
{
    let len = name.unicode_len();
    if len < 5 {
        proof {
            assert forall|id: u64| name@ != #[trigger] segment_file_name(id) by {
                lemma_decimal(id as nat);
            }
        }
        return None;
    }
    let n_digits = len - 4;
    let ghost digits = name@.take(n_digits as int);
    let mut value: u64 = 0;
    let mut i: usize = 0;
    while i < n_digits
        invariant
            n_digits == name@.len() - 4,
            0 <= i <= n_digits,
            digits == name@.take(n_digits as int),
            forall|k: int| 0 <= k < i ==> #[trigger] is_digit(digits[k]),
            value == digits_value(digits.take(i as int)),
        decreases n_digits - i,
    {
        let c = name.get_char(i);
        let digit = digit_of(c);
        if digit.is_none() {
            proof {
                assert forall|id: u64| name@ != #[trigger] segment_file_name(id) by {
                    lemma_decimal(id as nat);
                    if name@ == segment_file_name(id) {
                        assert(name@[i as int] == decimal(id as nat)[i as int]);
                    }
                }
            }
            return None;
        }
        let d = digit.unwrap();
        assert(digits.take(i + 1).drop_last() =~= digits.take(i as int));
        if value > (u64::MAX - d) / 10 {
            proof {
                assert forall|id: u64| name@ != #[trigger] segment_file_name(id) by {
                    lemma_decimal(id as nat);
                    if name@ == segment_file_name(id) {
                        assert(digits =~= decimal(id as nat));
                        lemma_digits_value_prefix(digits, i + 1, n_digits as int);
                        assert(digits.take(n_digits as int) =~= digits);
                    }
                }
            }
            return None;
        }
        value = value * 10 + d;
        i = i + 1;
    }
    let candidate = log_file_name(value);
    if candidate == String::from_str(name) {
        Some(value)
    } else {
        proof {
            assert(digits.take(n_digits as int) =~= digits);
            assert forall|id: u64| name@ != #[trigger] segment_file_name(id) by {
                lemma_decimal(id as nat);
                if name@ == segment_file_name(id) {
                    assert(digits =~= decimal(id as nat));
                }
            }
        }
        None
    }
}

/// Relies on `std::path::PathBuf`, as an opaque value.
#[verifier::external_type_specification]
#[verifier::external_body]
pub struct ExPathBuf(PathBuf);

/// The path of entry `file` of directory `dir`, as `Path::join` forms it.
pub uninterp spec fn joined_path(dir: PathBuf, file: Seq<char>) -> PathBuf;

/// Relies on `Path::join`: it adjoins `file` to `dir`, and what it returns
/// depends on its two arguments alone.
#[verifier::external_body]
fn join_path(dir: &PathBuf, file: &str) -> (r: PathBuf)
    ensures
        r == joined_path(*dir, file@),
{
    dir.join(file)
}

/// The path of the file of segment `file_id` in directory `dir`.
pub fn log_pathe(dir: &PathBuf, file_id: u64) -> (r: PathBuf)
    ensures
        r == joined_path(*dir, segment_file_name(file_id)),
{
    let name = log_file_name(file_id);
    join_path(dir, name.as_str())
}

pub open spec fn strictly_ascending(s: Seq<u64>) -> bool {
    forall|i: int, j: int| 0 <= i < j < s.len() ==> s[i] < s[j]
}

/// Adds `id` to an ascending vector, where it is not there yet.
fn insert_sorted(v: &mut Vec<u64>, id: u64)
    requires
        strictly_ascending(old(v)@),
    ensures
        strictly_ascending(final(v)@),
        forall|x: u64| #[trigger] final(v)@.contains(x) <==> old(v)@.contains(x) || x == id,
{
    let mut p: usize = 0;
    while p < v.len() && v[p] < id
        invariant
            0 <= p <= v@.len(),
            v@ == old(v)@,
            strictly_ascending(v@),
            forall|j: int| 0 <= j < p ==> #[trigger] v@[j] < id,
        decreases v@.len() - p,
    {
        p = p + 1;
    }
    if p < v.len() && v[p] == id {
        return;
    }
    let ghost before = v@;
    v.insert(p, id);
    proof {
        assert forall|x: u64| #[trigger] v@.contains(x) <==> before.contains(x) || x == id by {
            if v@.contains(x) {
                let w = choose|w: int| 0 <= w < v@.len() && v@[w] == x;
                if w < p {
                    assert(before[w] == x);
                } else if w > p {
                    assert(before[w - 1] == x);
                }
            }
            if before.contains(x) {
                let w = choose|w: int| 0 <= w < before.len() && before[w] == x;
                if w < p {
                    assert(v@[w] == x);
                } else {
                    assert(v@[w + 1] == x);
                }
            }
            if x == id {
                assert(v@[p as int] == x);
            }
        }
    }
}

/// The ids of the segment files among the names of a directory's entries,
/// each once, in ascending order.
pub fn segment_ids(names: &Vec<String>) -> (r: Vec<u64>)
    ensures
        strictly_ascending(r@),
        forall|id: u64|
            #[trigger] r@.contains(id) <==> exists|i: int|
                0 <= i < names@.len() && #[trigger] names@[i]@ == segment_file_name(id),
{
    let mut ids: Vec<u64> = Vec::new();
    let mut k: usize = 0;
    while k < names.len()
        invariant
            0 <= k <= names@.len(),
            strictly_ascending(ids@),
            forall|id: u64|
                #[trigger] ids@.contains(id) <==> exists|i: int|
                    0 <= i < k && #[trigger] names@[i]@ == segment_file_name(id),
        decreases names@.len() - k,
    {
        let parsed = parse_log_file_name(names[k].as_str());
        let ghost before = ids@;
        match parsed {
            Some(id) => {
                insert_sorted(&mut ids, id);
            },
            None => {},
        }
        proof {
            assert forall|id: u64| #[trigger] ids@.contains(id) <==> exists|i: int|
                0 <= i < k + 1 && #[trigger] names@[i]@ == segment_file_name(id) by {
                if names@[k as int]@ == segment_file_name(id) {
                    assert(parsed == Some(id)) by {
                        if let Some(other) = parsed {
                            if other != id {
                                lemma_segment_file_name_injective(id, other);
                            }
                        }
                    }
                }
                if exists|i: int| 0 <= i < k + 1 && #[trigger] names@[i]@ == segment_file_name(id) {
                    let i = choose|i: int| 0 <= i < k + 1 && #[trigger] names@[i]@ == segment_file_name(id);
                    if i < k {
                        assert(before.contains(id));
                    }
                }
            }
        }
        k = k + 1;
    }
    ids
}

proof fn lemma_segment_file_name_injective(a: u64, b: u64)
    requires
        a != b,
    ensures
        segment_file_name(a) != segment_file_name(b),
{
    lemma_decimal(a as nat);
    lemma_decimal(b as nat);
    if segment_file_name(a) == segment_file_name(b) {
        let la = decimal(a as nat).len();
        assert(segment_file_name(a).len() == la + 4);
        assert(decimal(a as nat) =~= segment_file_name(a).take(la as int));
        assert(decimal(b as nat) =~= segment_file_name(b).take(la as int));
    }
}

} // verus!
