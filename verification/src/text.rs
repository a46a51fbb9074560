//! Operations on names and other short texts, stated over their characters.

use vstd::prelude::*;
use vstd::string::{StrSliceExecFns, StringExecFns};

verus! {

/// Whether `p` occurs in `s`.
pub open spec fn occurs(s: Seq<char>, p: Seq<char>) -> bool {
    exists|i: int| occurs_at(s, p, i)
}

/// Whether `p` occurs in `s` at `i`.
pub open spec fn occurs_at(s: Seq<char>, p: Seq<char>, i: int) -> bool {
    0 <= i && i + p.len() <= s.len() && s.subrange(i, i + p.len()) == p
}

/// `s` with every occurrence of `from`, taken from the left without overlap,
/// replaced by `to`.
pub open spec fn replaced(s: Seq<char>, from: Seq<char>, to: Seq<char>) -> Seq<char>
    decreases s.len(),
{
    if s.len() == 0 || from.len() == 0 {
        s
    } else if from.is_prefix_of(s) {
        to + replaced(s.skip(from.len() as int), from, to)
    } else {
        s.take(1) + replaced(s.skip(1), from, to)
    }
}

/// Where `c` first stands in `s`; the length of `s` if it does not.
pub open spec fn first_at(s: Seq<char>, c: char) -> nat
    decreases s.len(),
{
    if s.len() == 0 || s[0] == c {
        0
    } else {
        1 + first_at(s.skip(1), c)
    }
}

/// The pieces of `s` between the occurrences of `c`.
pub open spec fn split_on(s: Seq<char>, c: char) -> Seq<Seq<char>>
    decreases s.len(),
{
    let i = first_at(s, c) as int;
    if i < s.len() {
        seq![s.take(i)] + split_on(s.skip(i + 1), c)
    } else {
        seq![s]
    }
}

/// Whether `c` is a decimal digit.
pub open spec fn is_digit(c: char) -> bool {
    '0' <= c <= '9'
}

/// Whether `s` is one decimal digit after another, at least one.
pub open spec fn is_number(s: Seq<char>) -> bool {
    s.len() > 0 && forall|i: int| 0 <= i < s.len() ==> is_digit(#[trigger] s[i])
}

/// The number that the digits `s` write.
pub open spec fn number(s: Seq<char>) -> nat
    decreases s.len(),
{
    if s.len() == 0 {
        0
    } else {
        number(s.drop_last()) * 10 + (s.last() as int - '0' as int) as nat
    }
}

/// The digits of an unsigned number: one plus sign may stand before them.
pub open spec fn unsigned_digits(s: Seq<char>) -> Seq<char> {
    if s.len() > 0 && s[0] == '+' {
        s.skip(1)
    } else {
        s
    }
}

/// The unsigned number that `s` writes, if it is one and at most `max`.
pub open spec fn unsigned_in(s: Seq<char>, max: int) -> Option<int> {
    let d = unsigned_digits(s);
    if is_number(d) && number(d) <= max {
        Some(number(d) as int)
    } else {
        None
    }
}

/// The signed number that `s` writes, if it is one that fits 64 bits.
pub open spec fn signed_in(s: Seq<char>) -> Option<int> {
    if s.len() > 0 && s[0] == '-' {
        let d = s.skip(1);
        if is_number(d) && number(d) <= -(i64::MIN as int) {
            Some(-(number(d) as int))
        } else {
            None
        }
    } else {
        unsigned_in(s, i64::MAX as int)
    }
}

/// How a number is written in decimal.
pub open spec fn decimal(n: nat) -> Seq<char>
    decreases n,
{
    if n < 10 {
        seq![digit(n)]
    } else {
        decimal(n / 10).push(digit(n % 10))
    }
}

/// The digit for a number under ten.
pub open spec fn digit(n: nat) -> char {
    ('0' as int + n) as char
}

/// The characters of `s`.
pub fn chars_of(s: &str) -> (v: Vec<char>)
    ensures
        v@ == s@,
{
    let mut v: Vec<char> = Vec::new();
    for c in it: s.chars()
        invariant
            it.seq() == s@,
            v@ == s@.take(it.index()),
    {
        v.push(c);
        assert(v@ =~= s@.take(it.index() + 1));
    }
    assert(v@ =~= s@);
    v
}

/// Whether the characters `p` stand in `s` at `i`.
pub fn matches_at(s: &Vec<char>, p: &Vec<char>, i: usize) -> (b: bool)
    ensures
        b == occurs_at(s@, p@, i as int),
{
    if i > s.len() || p.len() > s.len() - i {
        return false;
    }
    let n: usize = s.len();
    for j in 0..p.len()
        invariant
            i + p@.len() <= n,
            n == s@.len(),
            forall|k: int| 0 <= k < j ==> s@[i + k] == p@[k],
    {
        if s[i + j] != p[j] {
            proof {
                assert(s@.subrange(i as int, i + p@.len())[j as int] != p@[j as int]);
            }
            return false;
        }
    }
    assert(s@.subrange(i as int, i + p@.len()) =~= p@);
    true
}

/// Whether two texts are the same.
pub fn same(a: &str, b: &str) -> (r: bool)
    ensures
        r == (a@ == b@),
{
    let x: Vec<char> = chars_of(a);
    let y: Vec<char> = chars_of(b);
    let r: bool = x.len() == y.len() && matches_at(&x, &y, 0);
    proof {
        if x@.len() == y@.len() {
            assert(x@.subrange(0, y@.len() as int) =~= x@);
        }
    }
    r
}

/// Whether `s` begins with `p`.
pub fn starts_with(s: &str, p: &str) -> (b: bool)
    ensures
        b == p@.is_prefix_of(s@),
{
    let x: Vec<char> = chars_of(s);
    let y: Vec<char> = chars_of(p);
    matches_at(&x, &y, 0)
}

/// Whether `s` ends with `p`.
pub fn ends_with(s: &str, p: &str) -> (b: bool)
    ensures
        b == p@.is_suffix_of(s@),
{
    let x: Vec<char> = chars_of(s);
    let y: Vec<char> = chars_of(p);
    if y.len() > x.len() {
        return false;
    }
    let b: bool = matches_at(&x, &y, x.len() - y.len());
    assert(x@.subrange(x@.len() - y@.len(), x@.len() as int) == x@.subrange(
        (x@.len() - y@.len()) as int,
        (x@.len() - y@.len()) + y@.len(),
    ));
    b
}

/// Whether `p` occurs in `s`.
pub fn contains(s: &str, p: &str) -> (b: bool)
    ensures
        b == occurs(s@, p@),
{
    let x: Vec<char> = chars_of(s);
    let y: Vec<char> = chars_of(p);
    if y.len() == 0 {
        assert(x@.subrange(0, 0) =~= y@);
        assert(occurs_at(s@, p@, 0));
        return true;
    }
    for i in 0..x.len()
        invariant
            x@ == s@,
            y@ == p@,
            forall|j: int| 0 <= j < i ==> !occurs_at(s@, p@, j),
    {
        if matches_at(&x, &y, i) {
            assert(occurs_at(s@, p@, i as int));
            return true;
        }
    }
    false
}

/// What follows `p` in `s`, if `s` begins with it.
pub fn strip_prefix<'a>(s: &'a str, p: &str) -> (r: Option<&'a str>)
    ensures
        r is Some <==> p@.is_prefix_of(s@),
        r is Some ==> r->0@ == s@.skip(p@.len() as int),
{
    if starts_with(s, p) {
        let n: usize = p.unicode_len();
        let m: usize = s.unicode_len();
        let rest: &'a str = s.substring_char(n, m);
        assert(rest@ =~= s@.skip(p@.len() as int));
        Some(rest)
    } else {
        None
    }
}

/// `first_at` lies within `s`, stands at `c` if it is not its end, and at the
/// first one.
pub proof fn first_at_facts(s: Seq<char>, c: char)
    ensures
        0 <= first_at(s, c) <= s.len(),
        first_at(s, c) < s.len() ==> s[first_at(s, c) as int] == c,
        forall|i: int| 0 <= i < first_at(s, c) ==> s[i] != c,
    decreases s.len(),
{
    if s.len() > 0 && s[0] != c {
        let rest = s.skip(1);
        first_at_facts(rest, c);
        assert forall|i: int| 0 <= i < first_at(s, c) implies s[i] != c by {
            if i > 0 {
                assert(rest[i - 1] == s[i]);
            }
        }
    }
}

proof fn first_at_is(s: Seq<char>, c: char, i: int)
    requires
        0 <= i <= s.len(),
        i < s.len() ==> s[i] == c,
        forall|j: int| 0 <= j < i ==> s[j] != c,
    ensures
        first_at(s, c) == i,
{
    first_at_facts(s, c);
}

/// Where `c` first stands in `s`; the length of `s` if it does not.
pub fn find_char(s: &Vec<char>, c: char) -> (i: usize)
    ensures
        i == first_at(s@, c),
{
    let mut i: usize = 0;
    while i < s.len() && s[i] != c
        invariant
            i <= s@.len(),
            forall|j: int| 0 <= j < i ==> s@[j] != c,
        decreases s@.len() - i,
    {
        i = i + 1;
    }
    proof {
        first_at_is(s@, c, i as int);
    }
    i
}

/// What stands before and after the first `c` in `s`, if there is one.
pub fn split_once<'a>(s: &'a str, c: char) -> (r: Option<(&'a str, &'a str)>)
    ensures
        match r {
            Some((a, b)) => {
                &&& first_at(s@, c) < s@.len()
                &&& a@ == s@.take(first_at(s@, c) as int)
                &&& b@ == s@.skip(first_at(s@, c) as int + 1)
            },
            None => first_at(s@, c) == s@.len(),
        },
{
    let v: Vec<char> = chars_of(s);
    let i: usize = find_char(&v, c);
    proof {
        first_at_facts(s@, c);
    }
    if i < v.len() {
        let a: &'a str = s.substring_char(0, i);
        let b: &'a str = s.substring_char(i + 1, v.len());
        assert(a@ =~= s@.take(i as int));
        assert(b@ =~= s@.skip(i + 1));
        Some((a, b))
    } else {
        None
    }
}

/// `s` with every occurrence of `from` replaced by `to`.
pub fn replace(s: &str, from: &str, to: &str) -> (r: String)
    requires
        from@.len() > 0,
    ensures
        r@ == replaced(s@, from@, to@),
{
    let x: Vec<char> = chars_of(s);
    let y: Vec<char> = chars_of(from);
    let mut out: String = String::new();
    let mut start: usize = 0;
    let mut i: usize = 0;
    proof {
        assert(s@.skip(0) =~= s@);
        assert(out@ + s@.subrange(0, 0) + replaced(s@.skip(0), from@, to@) =~= replaced(
            s@,
            from@,
            to@,
        ));
    }
    while i < x.len()
        invariant
            x@ == s@,
            y@ == from@,
            from@.len() > 0,
            start <= i <= s@.len(),
            out@ + s@.subrange(start as int, i as int) + replaced(s@.skip(i as int), from@, to@)
                == replaced(s@, from@, to@),
        decreases s@.len() - i,
    {
        let ghost rest = s@.skip(i as int);
        let ghost so_far = out@;
        if matches_at(&x, &y, i) {
            out.append(s.substring_char(start, i));
            out.append(to);
            proof {
                assert(rest.subrange(0, from@.len() as int) =~= s@.subrange(
                    i as int,
                    i + from@.len(),
                ));
                assert(from@.is_prefix_of(rest));
                assert(rest.skip(from@.len() as int) =~= s@.skip(i + from@.len()));
                let tail = replaced(s@.skip(i + from@.len()), from@, to@);
                assert(out@ + s@.subrange(i + from@.len(), i + from@.len()) + tail =~= so_far
                    + s@.subrange(start as int, i as int) + (to@ + tail));
            }
            i = i + y.len();
            start = i;
        } else {
            proof {
                assert(!from@.is_prefix_of(rest)) by {
                    if from@.is_prefix_of(rest) {
                        assert(rest.subrange(0, from@.len() as int) =~= s@.subrange(
                            i as int,
                            i + from@.len(),
                        ));
                    }
                }
                assert(rest.skip(1) =~= s@.skip(i + 1));
                let tail = replaced(s@.skip(i + 1), from@, to@);
                assert(so_far + s@.subrange(start as int, i + 1) + tail =~= so_far + s@.subrange(
                    start as int,
                    i as int,
                ) + (rest.take(1) + tail));
            }
            i = i + 1;
        }
    }
    let ghost so_far = out@;
    out.append(s.substring_char(start, i));
    proof {
        assert(s@.skip(i as int) =~= Seq::<char>::empty());
        assert(out@ =~= so_far + s@.subrange(start as int, i as int) + replaced(
            s@.skip(i as int),
            from@,
            to@,
        ));
    }
    out
}

proof fn number_grows(s: Seq<char>, n: int)
    requires
        0 <= n <= s.len(),
    ensures
        number(s.take(n)) <= number(s),
    decreases s.len() - n,
{
    if n < s.len() {
        number_grows(s, n + 1);
        assert(s.take(n + 1).drop_last() =~= s.take(n));
    } else {
        assert(s.take(n) =~= s);
    }
}

/// The number that the digits of `s` from `from` on write, if it is one and at
/// most `max`.
fn parse_digits(s: &Vec<char>, from: usize, max: u64) -> (r: Option<u64>)
    requires
        from <= s@.len(),
    ensures
        match r {
            Some(n) => is_number(s@.skip(from as int)) && n == number(s@.skip(from as int)) && n
                <= max,
            None => !is_number(s@.skip(from as int)) || number(s@.skip(from as int)) > max,
        },
{
    let ghost d = s@.skip(from as int);
    if from == s.len() {
        return None;
    }
    let mut n: u64 = 0;
    let mut i: usize = from;
    assert(d.take(0) =~= Seq::<char>::empty());
    while i < s.len()
        invariant
            from <= i <= s@.len(),
            d == s@.skip(from as int),
            n == number(d.take(i - from)),
            n <= max,
            forall|j: int| 0 <= j < i - from ==> is_digit(#[trigger] d[j]),
        decreases s@.len() - i,
    {
        let c: char = s[i];
        let ghost k = i - from;
        assert(d[k] == c);
        if c < '0' || c > '9' {
            assert(!is_digit(d[k]));
            return None;
        }
        let v: u64 = (c as u32 - '0' as u32) as u64;
        assert(d.take(k + 1).drop_last() =~= d.take(k));
        let next: u128 = n as u128 * 10 + v as u128;
        assert(next == number(d.take(k + 1)));
        if next > max as u128 {
            proof {
                number_grows(d, k + 1);
            }
            return None;
        }
        n = next as u64;
        i = i + 1;
    }
    assert(d.take(d.len() as int) =~= d);
    Some(n)
}

/// The unsigned number that `s` writes, if it is one and at most `max`.
pub fn parse_unsigned(s: &str, max: u64) -> (r: Option<u64>)
    ensures
        match r {
            Some(n) => unsigned_in(s@, max as int) == Some(n as int),
            None => unsigned_in(s@, max as int) is None,
        },
{
    let v: Vec<char> = chars_of(s);
    let from: usize = if v.len() > 0 && v[0] == '+' { 1 } else { 0 };
    assert(v@.skip(0) =~= v@);
    parse_digits(&v, from, max)
}

/// The signed number that `s` writes, if it is one that fits 64 bits.
pub fn parse_signed(s: &str) -> (r: Option<i64>)
    ensures
        match r {
            Some(n) => signed_in(s@) == Some(n as int),
            None => signed_in(s@) is None,
        },
{
    let v: Vec<char> = chars_of(s);
    if v.len() > 0 && v[0] == '-' {
        match parse_digits(&v, 1, 0x8000_0000_0000_0000u64) {
            None => None,
            Some(n) => {
                if n == 0x8000_0000_0000_0000u64 {
                    Some(i64::MIN)
                } else {
                    Some(-(n as i64))
                }
            },
        }
    } else {
        match parse_unsigned(s, i64::MAX as u64) {
            None => None,
            Some(n) => Some(n as i64),
        }
    }
}

fn digit_text(n: u128) -> (s: &'static str)
    requires
        n < 10,
    ensures
        s@ == seq![digit(n as nat)],
{
    proof {
        reveal_strlit("0");
        reveal_strlit("1");
        reveal_strlit("2");
        reveal_strlit("3");
        reveal_strlit("4");
        reveal_strlit("5");
        reveal_strlit("6");
        reveal_strlit("7");
        reveal_strlit("8");
        reveal_strlit("9");
    }
    let s: &'static str = if n == 0 {
        "0"
    } else if n == 1 {
        "1"
    } else if n == 2 {
        "2"
    } else if n == 3 {
        "3"
    } else if n == 4 {
        "4"
    } else if n == 5 {
        "5"
    } else if n == 6 {
        "6"
    } else if n == 7 {
        "7"
    } else if n == 8 {
        "8"
    } else {
        "9"
    };
    assert(s@ =~= seq![digit(n as nat)]);
    s
}

/// `n` in decimal.
pub fn to_decimal(n: u128) -> (s: String)
    ensures
        s@ == decimal(n as nat),
    decreases n,
{
    if n < 10 {
        String::from_str(digit_text(n))
    } else {
        let mut s: String = to_decimal(n / 10);
        s.append(digit_text(n % 10));
        assert(s@ =~= decimal(n as nat));
        s
    }
}

/// The texts `a` and `b` one after the other.
pub fn joined(a: &str, b: &str) -> (s: String)
    ensures
        s@ == a@ + b@,
{
    let mut s: String = String::from_str(a);
    s.append(b);
    s
}

/// What stands before `p` in `s`, if `s` ends with it.
pub fn strip_suffix<'a>(s: &'a str, p: &str) -> (r: Option<&'a str>)
    ensures
        r is Some <==> p@.is_suffix_of(s@),
        r is Some ==> r->0@ == s@.take(s@.len() - p@.len()),
{
    if ends_with(s, p) {
        let n: usize = p.unicode_len();
        let m: usize = s.unicode_len();
        let front: &'a str = s.substring_char(0, m - n);
        assert(front@ =~= s@.take(s@.len() - p@.len()));
        Some(front)
    } else {
        None
    }
}

/// A number's decimal digits write that number, and nothing but digits.
pub proof fn decimal_writes_the_number(n: nat)
    ensures
        is_number(decimal(n)),
        number(decimal(n)) == n,
    decreases n,
{
    if n < 10 {
        assert(decimal(n).drop_last() =~= Seq::<char>::empty());
        assert(number(Seq::<char>::empty()) == 0);
        assert(decimal(n).last() == digit(n));
    } else {
        decimal_writes_the_number(n / 10);
        let d = decimal(n);
        assert(d.drop_last() =~= decimal(n / 10));
        assert forall|i: int| 0 <= i < d.len() implies is_digit(#[trigger] d[i]) by {
            if i < d.len() - 1 {
                assert(d[i] == decimal(n / 10)[i]);
            }
        }
    }
}

/// The parts of a name with a dot between any two.
pub open spec fn dotted(parts: Seq<Seq<char>>) -> Seq<char>
    decreases parts.len(),
{
    if parts.len() == 0 {
        Seq::empty()
    } else if parts.len() == 1 {
        parts[0]
    } else {
        parts[0] + seq!['.'] + dotted(parts.drop_first())
    }
}

/// Whether a text has no dot.
pub open spec fn is_plain(x: Seq<char>) -> bool {
    forall|i: int| 0 <= i < x.len() ==> #[trigger] x[i] != '.'
}

/// Whether no part of a name has a dot.
pub open spec fn are_plain(parts: Seq<Seq<char>>) -> bool {
    forall|i: int| 0 <= i < parts.len() ==> is_plain(#[trigger] parts[i])
}

/// Whether `x` never stands twice in a row.
pub open spec fn stands_alone(parts: Seq<Seq<char>>, x: Seq<char>) -> bool {
    forall|i: int| 0 < i < parts.len() && #[trigger] parts[i] == x ==> parts[i - 1] != x
}

/// `parts` with `y` for every inner part `x`.
pub open spec fn inner_renamed(parts: Seq<Seq<char>>, x: Seq<char>, y: Seq<char>) -> Seq<Seq<char>> {
    Seq::new(
        parts.len(),
        |i: int|
            if 0 < i < parts.len() - 1 && parts[i] == x {
                y
            } else {
                parts[i]
            },
    )
}

proof fn plain_text_is_left_alone(
    p: Seq<char>,
    rest: Seq<char>,
    from: Seq<char>,
    to: Seq<char>,
)
    requires
        is_plain(p),
        from.len() > 0,
        from[0] == '.',
    ensures
        replaced(p + rest, from, to) == p + replaced(rest, from, to),
    decreases p.len(),
{
    if p.len() == 0 {
        assert(p + rest =~= rest);
        assert(p + replaced(rest, from, to) =~= replaced(rest, from, to));
    } else {
        let s = p + rest;
        let q = p.skip(1);
        assert(s[0] == p[0]);
        assert(!from.is_prefix_of(s)) by {
            if from.is_prefix_of(s) {
                assert(from[0] == s[0]);
            }
        }
        assert(s.skip(1) =~= q + rest);
        assert(is_plain(q)) by {
            assert forall|i: int| 0 <= i < q.len() implies #[trigger] q[i] != '.' by {
                assert(q[i] == p[i + 1]);
            }
        }
        plain_text_is_left_alone(q, rest, from, to);
        assert(s.take(1) + (q + replaced(rest, from, to)) =~= p + replaced(rest, from, to));
    }
}

/// Replacing a part between two dots replaces that part of a name, wherever it is neither
/// the first nor the last, and nothing else.
pub proof fn replacing_renames_inner_parts(parts: Seq<Seq<char>>, x: Seq<char>, y: Seq<char>)
    requires
        are_plain(parts),
        is_plain(x),
        stands_alone(parts, x),
    ensures
        replaced(dotted(parts), seq!['.'] + x + seq!['.'], seq!['.'] + y + seq!['.']) == dotted(
            inner_renamed(parts, x, y),
        ),
    decreases parts.len(),
{
    let from = seq!['.'] + x + seq!['.'];
    let to = seq!['.'] + y + seq!['.'];
    let now = inner_renamed(parts, x, y);
    if parts.len() == 0 {
    } else if parts.len() == 1 {
        assert(is_plain(parts[0]));
        plain_text_is_left_alone(parts[0], Seq::empty(), from, to);
        assert(parts[0] + Seq::<char>::empty() =~= parts[0]);
    } else {
        let tail = parts.drop_first();
        let r = seq!['.'] + dotted(tail);
        assert(dotted(parts) =~= parts[0] + r);
        assert(is_plain(parts[0]));
        plain_text_is_left_alone(parts[0], r, from, to);
        assert(are_plain(tail)) by {
            assert forall|i: int| 0 <= i < tail.len() implies is_plain(#[trigger] tail[i]) by {
                assert(tail[i] == parts[i + 1]);
            }
        }
        assert(stands_alone(tail, x)) by {
            assert forall|i: int| 0 < i < tail.len() && #[trigger] tail[i] == x implies tail[i - 1]
                != x by {
                assert(tail[i] == parts[i + 1] && tail[i - 1] == parts[i]);
            }
        }
        let tail_now = inner_renamed(tail, x, y);
        if tail.len() >= 2 && tail[0] == x {
            let last = tail.drop_first();
            assert(are_plain(last)) by {
                assert forall|i: int| 0 <= i < last.len() implies is_plain(#[trigger] last[i]) by {
                    assert(last[i] == parts[i + 2]);
                }
            }
            assert(stands_alone(last, x)) by {
                assert forall|i: int| 0 < i < last.len() && #[trigger] last[i] == x implies last[i
                    - 1] != x by {
                    assert(last[i] == parts[i + 2] && last[i - 1] == parts[i + 1]);
                }
            }
            assert(r =~= from + dotted(last));
            assert(from.is_prefix_of(r)) by {
                assert(r.take(from.len() as int) =~= from);
            }
            assert(r.skip(from.len() as int) =~= dotted(last));
            replacing_renames_inner_parts(last, x, y);
            let last_now = inner_renamed(last, x, y);
            assert(parts[1] == x && parts[1] == tail[0]);
            assert(last[0] == parts[2]);
            assert(now.drop_first().drop_first() =~= last_now) by {
                assert(parts[2] != x);
            }
            assert(now[0] == parts[0] && now[1] == y);
            dotted_in_two(now);
            assert(replaced(r, from, to) == to + dotted(last_now));
            assert(parts[0] + (to + dotted(last_now)) =~= dotted(now));
        } else {
            assert(!from.is_prefix_of(r)) by {
                if from.is_prefix_of(r) {
                    part_in_front(tail, x, r);
                }
            }
            replacing_renames_inner_parts(tail, x, y);
            assert(r.skip(1) =~= dotted(tail));
            assert(r.take(1) =~= seq!['.']);
            assert(replaced(r, from, to) == seq!['.'] + dotted(tail_now));
            assert(now.drop_first() =~= tail_now) by {
                assert(parts[1] == tail[0]);
            }
            assert(now[0] == parts[0]);
            assert(parts[0] + (seq!['.'] + dotted(tail_now)) =~= dotted(now));
        }
    }
}

proof fn dotted_in_two(parts: Seq<Seq<char>>)
    requires
        parts.len() >= 3,
    ensures
        dotted(parts) == parts[0] + seq!['.'] + (parts[1] + seq!['.'] + dotted(
            parts.drop_first().drop_first(),
        )),
{
    reveal_with_fuel(dotted, 2);
    assert(parts.drop_first()[0] == parts[1]);
}

proof fn part_in_front(tail: Seq<Seq<char>>, x: Seq<char>, r: Seq<char>)
    requires
        tail.len() > 0,
        are_plain(tail),
        is_plain(x),
        r == seq!['.'] + dotted(tail),
        (seq!['.'] + x + seq!['.']).is_prefix_of(r),
    ensures
        tail.len() >= 2,
        tail[0] == x,
{
    let from = seq!['.'] + x + seq!['.'];
    let p = tail[0];
    let d = dotted(tail);
    assert(is_plain(p));
    assert(r.take(from.len() as int) == from);
    assert(d[x.len() as int] == '.') by {
        assert(r[1 + x.len() as int] == from[1 + x.len() as int]);
    }
    assert forall|i: int| 0 <= i < x.len() implies d[i] == x[i] by {
        assert(r[1 + i] == from[1 + i]);
    }
    assert forall|i: int| 0 <= i < p.len() implies d[i] == p[i] by {}
    if p.len() > x.len() {
        assert(p[x.len() as int] == '.');
    }
    if tail.len() >= 2 && p.len() < x.len() {
        assert(d[p.len() as int] == '.');
        assert(x[p.len() as int] == '.');
    }
    assert(p =~= x);
}

/// `parts` with `y` for every part `x` but the first.
pub open spec fn later_renamed(parts: Seq<Seq<char>>, x: Seq<char>, y: Seq<char>) -> Seq<Seq<char>> {
    Seq::new(
        parts.len(),
        |i: int|
            if 0 < i && parts[i] == x {
                y
            } else {
                parts[i]
            },
    )
}

/// Replacing a part and the dot before it replaces that part of a name, wherever it is not
/// the first, as long as no other part begins like it.
#[verifier::rlimit(40)]
pub proof fn replacing_renames_later_parts(parts: Seq<Seq<char>>, x: Seq<char>, y: Seq<char>)
    requires
        are_plain(parts),
        is_plain(x),
        forall|i: int|
            0 < i < parts.len() && x.is_prefix_of(#[trigger] parts[i]) ==> parts[i] == x,
    ensures
        replaced(dotted(parts), seq!['.'] + x, seq!['.'] + y) == dotted(later_renamed(parts, x, y)),
    decreases parts.len(),
{
    let from = seq!['.'] + x;
    let to = seq!['.'] + y;
    let now = later_renamed(parts, x, y);
    if parts.len() == 0 {
    } else if parts.len() == 1 {
        assert(is_plain(parts[0]));
        plain_text_is_left_alone(parts[0], Seq::empty(), from, to);
        assert(parts[0] + Seq::<char>::empty() =~= parts[0]);
    } else {
        let tail = parts.drop_first();
        let r = seq!['.'] + dotted(tail);
        assert(dotted(parts) =~= parts[0] + r);
        assert(is_plain(parts[0]));
        plain_text_is_left_alone(parts[0], r, from, to);
        assert(are_plain(tail)) by {
            assert forall|i: int| 0 <= i < tail.len() implies is_plain(#[trigger] tail[i]) by {
                assert(tail[i] == parts[i + 1]);
            }
        }
        assert forall|i: int| 0 < i < tail.len() && x.is_prefix_of(#[trigger] tail[i]) implies
            tail[i] == x by {
            assert(tail[i] == parts[i + 1]);
        }
        assert(tail[0] == parts[1]);
        assert(now[0] == parts[0]);
        let tail_now = later_renamed(tail, x, y);
        replacing_renames_later_parts(tail, x, y);
        if tail[0] == x {
            assert(x.is_prefix_of(dotted(tail))) by {
                assert(dotted(tail).take(x.len() as int) =~= x);
            }
            assert(from.is_prefix_of(r)) by {
                assert(r.take(from.len() as int) =~= from);
            }
            let rest = dotted(tail).skip(x.len() as int);
            assert(r.skip(from.len() as int) =~= rest);
            assert(dotted(tail) =~= x + rest);
            plain_text_is_left_alone(x, rest, from, to);
            assert(replaced(r, from, to) == to + replaced(rest, from, to));
            let first_kept = dotted(tail_now);
            assert(first_kept == x + replaced(rest, from, to));
            if tail.len() == 1 {
                assert(now.drop_first() =~= seq![y]);
                assert(dotted(seq![y]) == y);
                assert(dotted(now) =~= parts[0] + seq!['.'] + y);
                assert(tail_now =~= seq![x]);
                assert(replaced(rest, from, to) =~= Seq::<char>::empty()) by {
                    assert(rest.len() == 0);
                }
                assert(parts[0] + (to + replaced(rest, from, to)) =~= dotted(now));
            } else {
                let inner = tail_now.drop_first();
                assert(now.drop_first().drop_first() =~= inner);
                assert(now[1] == y);
                dotted_in_two(now);
                assert(first_kept =~= x + (seq!['.'] + dotted(inner)));
                assert(replaced(rest, from, to) =~= seq!['.'] + dotted(inner)) by {
                    assert(first_kept.skip(x.len() as int) =~= replaced(rest, from, to));
                    assert(first_kept.skip(x.len() as int) =~= seq!['.'] + dotted(inner));
                }
                assert(parts[0] + (to + replaced(rest, from, to)) =~= dotted(now));
            }
        } else {
            assert(!from.is_prefix_of(r)) by {
                if from.is_prefix_of(r) {
                    let d = dotted(tail);
                    assert(r.take(from.len() as int) == from);
                    assert forall|i: int| 0 <= i < x.len() implies d[i] == x[i] by {
                        assert(r[1 + i] == from[1 + i]);
                    }
                    let p = tail[0];
                    assert(is_plain(p));
                    assert forall|i: int| 0 <= i < p.len() implies d[i] == p[i] by {}
                    if p.len() < x.len() {
                        assert(tail.len() >= 2);
                        assert(d[p.len() as int] == '.');
                        assert(x[p.len() as int] == '.');
                    }
                    assert(p.take(x.len() as int) =~= x);
                    assert(x.is_prefix_of(parts[1]));
                }
            }
            assert(r.skip(1) =~= dotted(tail));
            assert(r.take(1) =~= seq!['.']);
            assert(now.drop_first() =~= tail_now);
            assert(parts[0] + (seq!['.'] + dotted(tail_now)) =~= dotted(now));
        }
    }
}

/// A name falls into its parts again.
pub proof fn splitting_gives_back_the_parts(parts: Seq<Seq<char>>)
    requires
        parts.len() > 0,
        are_plain(parts),
    ensures
        split_on(dotted(parts), '.') == parts,
    decreases parts.len(),
{
    let s = dotted(parts);
    let p = parts[0];
    first_at_facts(s, '.');
    let i = first_at(s, '.') as int;
    assert(is_plain(p));
    if parts.len() == 1 {
        if i < s.len() {
            assert(p[i] == '.');
        }
        assert(split_on(s, '.') =~= parts);
    } else {
        let tail = parts.drop_first();
        assert(are_plain(tail)) by {
            assert forall|k: int| 0 <= k < tail.len() implies is_plain(#[trigger] tail[k]) by {
                assert(tail[k] == parts[k + 1]);
            }
        }
        splitting_gives_back_the_parts(tail);
        assert(s[p.len() as int] == '.');
        if i < p.len() {
            assert(s[i] == p[i]);
        }
        assert(s.take(p.len() as int) =~= p);
        assert(s.skip(p.len() as int + 1) =~= dotted(tail));
        assert(split_on(s, '.') =~= parts);
    }
}

/// Replacing what does not occur changes nothing.
pub proof fn nothing_is_replaced(s: Seq<char>, from: Seq<char>, to: Seq<char>)
    requires
        !occurs(s, from),
    ensures
        replaced(s, from, to) == s,
    decreases s.len(),
{
    if s.len() > 0 && from.len() > 0 {
        if from.is_prefix_of(s) {
            assert(s.subrange(0, from.len() as int) =~= from);
            assert(occurs_at(s, from, 0));
        }
        let rest = s.skip(1);
        if occurs(rest, from) {
            let i = choose|i: int| occurs_at(rest, from, i);
            assert(s.subrange(i + 1, i + 1 + from.len()) =~= rest.subrange(i, i + from.len()));
            assert(occurs_at(s, from, i + 1));
        }
        nothing_is_replaced(rest, from, to);
        assert(s.take(1) + rest =~= s);
    }
}

/// Replacing what occurs at the end alone replaces the end.
pub proof fn the_end_is_replaced(a: Seq<char>, from: Seq<char>, to: Seq<char>)
    requires
        from.len() > 0,
        forall|i: int| 0 <= i < a.len() ==> !occurs_at(a + from, from, i),
    ensures
        replaced(a + from, from, to) == a + to,
    decreases a.len(),
{
    let s = a + from;
    if a.len() == 0 {
        assert(s =~= from);
        assert(from.is_prefix_of(s)) by {
            assert(s.take(from.len() as int) =~= from);
        }
        assert(s.skip(from.len() as int) =~= Seq::<char>::empty());
        assert(replaced(Seq::<char>::empty(), from, to) =~= Seq::<char>::empty());
        assert(to + Seq::<char>::empty() =~= a + to);
    } else {
        let b = a.skip(1);
        assert(!from.is_prefix_of(s)) by {
            if from.is_prefix_of(s) {
                assert(s.subrange(0, from.len() as int) =~= from);
                assert(occurs_at(s, from, 0));
            }
        }
        assert(s.skip(1) =~= b + from);
        assert forall|i: int| 0 <= i < b.len() implies !occurs_at(b + from, from, i) by {
            if occurs_at(b + from, from, i) {
                assert(s.subrange(i + 1, i + 1 + from.len()) =~= (b + from).subrange(
                    i,
                    i + from.len(),
                ));
                assert(occurs_at(s, from, i + 1));
            }
        }
        the_end_is_replaced(b, from, to);
        assert(s.take(1) + (b + to) =~= a + to);
    }
}

/// A number that was written in decimal is read back, with or without a sign, where it
/// is in range, and is refused where it is not. It is written without leading zeros.
pub proof fn written_numbers_are_read_back(n: nat, max: int)
    ensures
        unsigned_in(decimal(n), max) == if n <= max {
            Some(n as int)
        } else {
            None
        },
        unsigned_in(seq!['+'] + decimal(n), max) == unsigned_in(decimal(n), max),
        unsigned_in(seq!['-'] + decimal(n), max) is None,
        signed_in(decimal(n)) == if n <= i64::MAX {
            Some(n as int)
        } else {
            None
        },
        signed_in(seq!['-'] + decimal(n)) == if n <= 0x8000_0000_0000_0000 {
            Some(-(n as int))
        } else {
            None
        },
        unsigned_in(Seq::empty(), max) is None,
        n > 0 ==> decimal(n)[0] != '0',
        n == 0 ==> decimal(n) == seq!['0'],
{
    decimal_writes_the_number(n);
    no_leading_zero(n);
    let d = decimal(n);
    assert(is_digit(d[0]));
    assert((seq!['+'] + d).skip(1) =~= d);
    assert((seq!['-'] + d).skip(1) =~= d);
    assert(!is_digit((seq!['-'] + d)[0]));
}

proof fn no_leading_zero(n: nat)
    ensures
        n > 0 ==> decimal(n)[0] != '0',
        decimal(n).len() > 0,
    decreases n,
{
    if n >= 10 {
        no_leading_zero(n / 10);
        assert(decimal(n)[0] == decimal(n / 10)[0]);
    }
}

/// A text contains exactly what it can be put together around, begins with what something
/// can follow to give it, and ends with what something can precede to give it. What is
/// stripped off put back gives the text.
pub proof fn a_text_is_put_together_again<'a>(
    s: &'a str,
    p: &str,
    within: bool,
    first: bool,
    last: bool,
    behind: Option<&'a str>,
    before: Option<&'a str>,
    x: Seq<char>,
    y: Seq<char>,
)
    requires
        call_ensures(contains, (s, p), within),
        call_ensures(starts_with, (s, p), first),
        call_ensures(ends_with, (s, p), last),
        call_ensures(strip_prefix, (s, p), behind),
        call_ensures(strip_suffix, (s, p), before),
    ensures
        s@ == x + p@ + y ==> within,
        within ==> exists|i: int|
            0 <= i && i + p@.len() <= s@.len() && s@ == #[trigger] s@.take(i) + p@ + s@.skip(
                i + p@.len(),
            ),
        s@ == p@ + y ==> first && behind is Some && behind->0@ == y,
        s@ == x + p@ ==> last && before is Some && before->0@ == x,
        first <==> behind is Some,
        last <==> before is Some,
        behind is Some ==> s@ == p@ + behind->0@,
        before is Some ==> s@ == before->0@ + p@,
{
    let t = s@;
    let q = p@;
    let n = q.len() as int;
    if t == x + q + y {
        assert(t.subrange(x.len() as int, x.len() + n) =~= q);
        assert(occurs_at(t, q, x.len() as int));
    }
    if within {
        let i = choose|i: int| occurs_at(t, q, i);
        assert(t =~= t.take(i) + q + t.skip(i + n));
    }
    if t == q + y {
        assert(t.take(n) =~= q);
        assert(t.skip(n) =~= y);
    }
    if t == x + q {
        assert(t.skip(t.len() - n) =~= q);
        assert(t.take(t.len() - n) =~= x);
    }
    if first {
        assert(t =~= q + t.skip(n));
    }
    if last {
        assert(t =~= t.take(t.len() - n) + q);
    }
}

/// A text is split at the first of the characters, which stands in neither its front nor,
/// where it cannot be split, anywhere.
pub proof fn a_text_is_split_at_the_first<'a>(
    s: &'a str,
    c: char,
    r: Option<(&'a str, &'a str)>,
    a: Seq<char>,
    b: Seq<char>,
)
    requires
        call_ensures(split_once, (s, c), r),
    ensures
        s@ == a + seq![c] + b && !a.contains(c) ==> r is Some,
        r matches Some((f, g)) ==> s@ == a + seq![c] + b && !a.contains(c) ==> f@ == a && g@ == b,
        r matches Some((f, g)) ==> s@ == f@ + seq![c] + g@ && !f@.contains(c),
        r is None <==> !s@.contains(c),
{
    let t = s@;
    first_at_facts(t, c);
    let i = first_at(t, c) as int;
    if r is Some {
        assert(t[i] == c);
        assert(t =~= t.take(i) + seq![c] + t.skip(i + 1));
        if t.take(i).contains(c) {
            let k = choose|k: int| 0 <= k < i && t.take(i)[k] == c;
            assert(t[k] == c);
        }
        assert(t.contains(c));
    }
    if t == a + seq![c] + b && !a.contains(c) {
        let n = a.len() as int;
        assert(t[n] == c);
        if i < n {
            assert(a[i] == t[i]);
            assert(a.contains(c));
        }
        assert(t.take(n) =~= a);
        assert(t.skip(n + 1) =~= b);
    }
}

/// What is written is what is read: numbers come back through their own text.
pub proof fn numbers_come_back_through_their_text(
    n: u64,
    max: u64,
    s: String,
    u: Option<u64>,
    i: Option<i64>,
    a: &str,
    b: &str,
    ab: String,
    t: &str,
)
    requires
        call_ensures(to_decimal, (n as u128,), s),
        t@ == s@,
        call_ensures(parse_unsigned, (t, max), u),
        call_ensures(parse_signed, (t,), i),
        call_ensures(joined, (a, b), ab),
    ensures
        n <= max ==> u == Some(n),
        n > max ==> u is None,
        n <= i64::MAX ==> i is Some && i->0 == n,
        n > i64::MAX ==> i is None,
        ab@.take(a@.len() as int) == a@ && ab@.skip(a@.len() as int) == b@,
{
    written_numbers_are_read_back(n as nat, max as int);
    assert(ab@.take(a@.len() as int) =~= a@);
    assert(ab@.skip(a@.len() as int) =~= b@);
}

} // verus!
