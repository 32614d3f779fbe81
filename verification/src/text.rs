//! Comparing, splitting and writing text.

use vstd::prelude::*;
use vstd::string::*;
use vstd::utf8::{encode_utf8, encode_utf8_decode_utf8};

verus! {

/// Determine whether `a` and `b` are the same text.
pub fn same_text(a: &str, b: &str) -> (r: bool)
    ensures
        r == (a@ == b@),
{
    let x: &[u8] = a.as_bytes();
    let y: &[u8] = b.as_bytes();
    proof {
        encode_utf8_decode_utf8(a@);
        encode_utf8_decode_utf8(b@);
        assert(encode_utf8(a@) == encode_utf8(b@) ==> a@ == b@);
    }
    if x.len() != y.len() {
        return false;
    }
    let mut i: usize = 0;
    while i < x.len()
        invariant
            i <= x.len(),
            x@.len() == y@.len(),
            x@ == a.spec_bytes(),
            y@ == b.spec_bytes(),
            forall|j: int| 0 <= j < i ==> x@[j] == y@[j],
        decreases x.len() - i,
    {
        if x[i] != y[i] {
            return false;
        }
        i += 1;
    }
    assert(x@ =~= y@);
    true
}

/// The character for the digit `d`.
pub open spec fn digit_char(d: nat) -> char {
    if d == 0 {
        '0'
    } else if d == 1 {
        '1'
    } else if d == 2 {
        '2'
    } else if d == 3 {
        '3'
    } else if d == 4 {
        '4'
    } else if d == 5 {
        '5'
    } else if d == 6 {
        '6'
    } else if d == 7 {
        '7'
    } else if d == 8 {
        '8'
    } else {
        '9'
    }
}

/// `n` written in decimal.
pub open spec fn decimal_spec(n: nat) -> Seq<char>
    decreases n,
{
    if n < 10 {
        seq![digit_char(n)]
    } else {
        decimal_spec(n / 10).push(digit_char(n % 10))
    }
}

fn digit_text(d: usize) -> (s: &'static str)
    requires
        d < 10,
    ensures
        s@ == seq![digit_char(d as nat)],
{
    proof {
        reveal_strlit("0");
        reveal_strlit("1");
        reveal_strlit("2");
        reveal_strlit("3");
        reveal_strlit("4");
        reveal_strlit("5");
        reveal_strlit("6");
        reveal_strlit("7");
        reveal_strlit("8");
        reveal_strlit("9");
    }
    let s = if d == 0 {
        "0"
    } else if d == 1 {
        "1"
    } else if d == 2 {
        "2"
    } else if d == 3 {
        "3"
    } else if d == 4 {
        "4"
    } else if d == 5 {
        "5"
    } else if d == 6 {
        "6"
    } else if d == 7 {
        "7"
    } else if d == 8 {
        "8"
    } else {
        "9"
    };
    assert(s@ =~= seq![digit_char(d as nat)]);
    s
}

/// Write `n` in decimal.
pub fn decimal(n: usize) -> (s: String)
    ensures
        s@ == decimal_spec(n as nat),
    decreases n,
{
    if n < 10 {
        digit_text(n).to_owned()
    } else {
        let mut s: String = decimal(n / 10);
        s.append(digit_text(n % 10));
        assert(s@ =~= decimal_spec(n as nat));
        s
    }
}

/// The position of the first comma in `line` from `from` on, or the end of the line.
pub open spec fn next_comma(line: Seq<char>, from: int) -> int
    decreases line.len() - from,
{
    if from >= line.len() {
        line.len() as int
    } else if line[from] == ',' {
        from
    } else {
        next_comma(line, from + 1)
    }
}

/// Where column `j` of `line` starts, if it has so many.
pub open spec fn column_start(line: Seq<char>, j: nat) -> Option<int>
    decreases j,
{
    if j == 0 {
        Some(0)
    } else {
        match column_start(line, (j - 1) as nat) {
            None => None,
            Some(start) => {
                let end = next_comma(line, start);
                if end < line.len() {
                    Some(end + 1)
                } else {
                    None
                }
            },
        }
    }
}

/// Column `j` of a line of comma-separated values, if it has so many.
pub open spec fn column(line: Seq<char>, j: nat) -> Option<Seq<char>> {
    match column_start(line, j) {
        None => None,
        Some(start) => Some(line.subrange(start, next_comma(line, start))),
    }
}

/// Collect the characters of `s`.
pub fn chars_of(s: &str) -> (r: Vec<char>)
    ensures
        r@ == s@,
{
    let mut r: Vec<char> = Vec::new();
    for c in iter: s.chars()
        invariant
            iter.seq() == s@,
            r@ == s@.take(iter.index()),
    {
        assert(s@.take(iter.index() + 1) =~= s@.take(iter.index()).push(c));
        r.push(c);
    }
    assert(r@ =~= s@);
    r
}

/// Split a line of comma-separated values into its first `n` columns, or as many as there are.
pub fn columns_of(line: &str, n: usize) -> (r: Vec<String>)
    ensures
        r@.len() <= n,
        forall|j: int| 0 <= j < r@.len() ==> column(line@, j as nat) == Some((#[trigger] r@[j])@),
        r@.len() < n ==> column(line@, r@.len()) is None,
{
    let chars: Vec<char> = chars_of(line);
    let mut r: Vec<String> = Vec::new();
    let mut start: usize = 0;
    while r.len() < n
        invariant
            chars@ == line@,
            start <= chars@.len(),
            r@.len() <= n,
            column_start(line@, r@.len()) == Some(start as int),
            forall|j: int|
                0 <= j < r@.len() ==> column(line@, j as nat) == Some((#[trigger] r@[j])@),
        decreases n - r.len(),
    {
        let mut end: usize = start;
        while end < chars.len() && chars[end] != ','
            invariant
                chars@ == line@,
                start <= end <= chars@.len(),
                next_comma(line@, start as int) == next_comma(line@, end as int),
            decreases chars.len() - end,
        {
            end += 1;
        }
        assert(next_comma(line@, start as int) == end);
        r.push(line.substring_char(start, end).to_owned());
        if end >= chars.len() {
            assert(column_start(line@, r@.len()) is None);
            return r;
        }
        start = end + 1;
    }
    r
}

} // verus!
