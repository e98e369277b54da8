//! Text: ASCII case, decimal integers, and the search for a piece of text.

use vstd::prelude::*;

verus! {

/// An ASCII capital becomes its small letter; any other character stays.
pub open spec fn small(c: char) -> char {
    if 'A' <= c && c <= 'Z' {
        ((c as u32) + 32) as char
    } else {
        c
    }
}

/// Text with its ASCII capitals made small.
pub open spec fn lowered(s: Seq<char>) -> Seq<char> {
    s.map_values(|c: char| small(c))
}

/// `str::to_ascii_lowercase`: a copy of the text in which the ASCII letters A
/// to Z have become a to z and every other character is unchanged.
pub assume_specification[ str::to_ascii_lowercase ](s: &str) -> (r: String)
    ensures
        r@ == lowered(s@),
;

/// `str::eq_ignore_ascii_case`: whether the two texts are equal once the ASCII
/// capitals of both are made small.
pub assume_specification[ str::eq_ignore_ascii_case ](s: &str, other: &str) -> (r: bool)
    ensures
        r == (lowered(s@) == lowered(other@)),
;

/// The character of a decimal digit.
pub open spec fn digit(d: int) -> char {
    (('0' as u32) + d) as char
}

/// An integer in decimal.
pub open spec fn decimal(n: int) -> Seq<char>
    decreases n,
{
    if n < 10 {
        seq![digit(n)]
    } else {
        decimal(n / 10).push(digit(n % 10))
    }
}

fn digit_text(d: u64) -> (r: &'static str)
    requires
        d < 10,
    ensures
        r@ == seq![digit(d as int)],
{
    proof {
        reveal_strlit("0");
        reveal_strlit("1");
        reveal_strlit("2");
        reveal_strlit("3");
        reveal_strlit("4");
        reveal_strlit("5");
        reveal_strlit("6");
        reveal_strlit("7");
        reveal_strlit("8");
        reveal_strlit("9");
    }
    let r: &'static str = match d {
        0 => "0",
        1 => "1",
        2 => "2",
        3 => "3",
        4 => "4",
        5 => "5",
        6 => "6",
        7 => "7",
        8 => "8",
        _ => "9",
    };
    assert(r@ =~= seq![digit(d as int)]);
    r
}

/// An integer in decimal.
pub fn decimal_text(n: u64) -> (r: String)
    ensures
        r@ == decimal(n as int),
    decreases n,
{
    if n < 10 {
        String::from_str(digit_text(n))
    } else {
        let mut r = decimal_text(n / 10);
        r.append(digit_text(n % 10));
        assert(r@ =~= decimal(n as int));
        r
    }
}

/// The piece `part` stands in `s` at `i`.
pub open spec fn stands_at(s: Seq<char>, part: Seq<char>, i: int) -> bool {
    0 <= i && i + part.len() <= s.len() && s.subrange(i, i + part.len()) == part
}

/// Where `part` first stands in `s`, from `i` on.
pub open spec fn find_from(s: Seq<char>, part: Seq<char>, i: int) -> Option<int>
    decreases s.len() + 1 - i,
{
    if i + part.len() > s.len() {
        None
    } else if stands_at(s, part, i) {
        Some(i)
    } else {
        find_from(s, part, i + 1)
    }
}

/// The characters of a text.
pub fn characters(s: &str) -> (r: Vec<char>)
    ensures
        r@ == s@,
{
    let mut out: Vec<char> = Vec::new();
    for c in it: s.chars()
        invariant
            out@ == it.seq().take(it.index() as int),
            it.seq() == s@,
    {
        out.push(c);
    }
    assert(out@ =~= s@);
    out
}

/// Whether `part` stands in `s` at `i`.
pub fn stands(s: &Vec<char>, part: &Vec<char>, i: usize) -> (r: bool)
    requires
        i <= s.len(),
    ensures
        r == stands_at(s@, part@, i as int),
{
    if part.len() > s.len() - i {
        return false;
    }
    let mut k: usize = 0;
    while k < part.len() && s[i + k] == part[k]
        invariant
            k <= part.len(),
            i + part.len() <= s.len(),
            forall|j: int| 0 <= j < k ==> s@[i + j] == #[trigger] part@[j],
        decreases part.len() - k,
    {
        k += 1;
    }
    if k == part.len() {
        assert(s@.subrange(i as int, i + part@.len()) =~= part@);
        true
    } else {
        assert(s@.subrange(i as int, i + part@.len())[k as int] != part@[k as int]);
        false
    }
}

/// Where `part` first stands in `s`, from `start` on.
pub fn find(s: &Vec<char>, part: &Vec<char>, start: usize) -> (r: Option<usize>)
    requires
        start <= s.len(),
    ensures
        match r {
            Some(i) => {
                &&& find_from(s@, part@, start as int) == Some(i as int)
                &&& stands_at(s@, part@, i as int)
                &&& start <= i
            },
            None => find_from(s@, part@, start as int) is None,
        },
{
    let mut i: usize = start;
    while part.len() <= s.len() - i
        invariant
            start <= i <= s.len(),
            find_from(s@, part@, start as int) == find_from(s@, part@, i as int),
        decreases s.len() - i,
    {
        if stands(s, part, i) {
            return Some(i);
        }
        assert(part.len() == 0 ==> s@.subrange(i as int, i as int) =~= part@);
        i += 1;
    }
    None
}

/// A search finds the first place where the piece stands, and fails only where
/// it stands nowhere.
pub proof fn law_find_is_first(s: Seq<char>, part: Seq<char>, start: int)
    requires
        0 <= start,
    ensures
        match find_from(s, part, start) {
            Some(i) => {
                &&& start <= i
                &&& stands_at(s, part, i)
                &&& forall|k: int| start <= k < i ==> !#[trigger] stands_at(s, part, k)
            },
            None => forall|k: int| start <= k ==> !#[trigger] stands_at(s, part, k),
        },
    decreases s.len() + 1 - start,
{
    if start + part.len() <= s.len() && !stands_at(s, part, start) {
        law_find_is_first(s, part, start + 1);
    }
}

/// The integer that a decimal text stands for.
pub open spec fn read_decimal(s: Seq<char>) -> int
    decreases s.len(),
{
    if s.len() == 0 {
        0
    } else {
        read_decimal(s.drop_last()) * 10 + (s.last() as u32 - 48)
    }
}

/// What a digit is as a character.
proof fn lemma_digit(d: int)
    requires
        0 <= d < 10,
    ensures
        digit(d) as u32 == 48 + d,
        '0' <= digit(d) && digit(d) <= '9',
        d > 0 ==> digit(d) != '0',
{
}

/// A decimal text reads back as its integer; it holds digits alone, and starts
/// with a zero only where the integer is zero.
pub proof fn law_decimals_read_back(n: int)
    requires
        0 <= n,
    ensures
        read_decimal(decimal(n)) == n,
        decimal(n).len() > 0,
        forall|i: int|
            0 <= i < decimal(n).len() ==> '0' <= #[trigger] decimal(n)[i] && decimal(n)[i] <= '9',
        decimal(n).len() > 1 ==> decimal(n)[0] != '0',
        n > 0 ==> decimal(n)[0] != '0',
        n == 0 ==> decimal(n).len() == 1,
    decreases n,
{
    let d = decimal(n);
    let (tens, ones) = (n / 10, n % 10);
    assert(0 <= ones < 10 && n == 10 * tens + ones);
    lemma_digit(ones);
    if n < 10 {
        assert(d.drop_last() =~= Seq::<char>::empty());
        assert(read_decimal(d.drop_last()) == 0);
    } else {
        let front = decimal(tens);
        assert(0 < tens < n);
        law_decimals_read_back(tens);
        assert(d == front.push(digit(ones)));
        assert(d.drop_last() =~= front);
        assert(d[0] == front[0]);
    }
}

/// Text in small letters is as long as the text, and differs from it in the
/// letters A to Z alone, each of which has become a to z.
pub proof fn law_lowering_changes_capitals_alone(s: Seq<char>, i: int)
    requires
        0 <= i < s.len(),
    ensures
        lowered(s).len() == s.len(),
        'A' <= s[i] && s[i] <= 'Z' ==> lowered(s)[i] as u32 == s[i] as u32 + 32,
        s[i] < 'A' || 'Z' < s[i] ==> lowered(s)[i] == s[i],
{
}

} // verus!
