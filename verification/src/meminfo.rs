//! Memory figures from the text of the system's `meminfo` file.

use vstd::prelude::*;
use vstd::string::StrSliceExecFns;
use crate::text::{
    chars_of, decimal, decimal_writes_the_number, first_at, first_at_facts, is_digit,
    parse_unsigned, split_once, strip_prefix, unsigned_in, written_numbers_are_read_back,
};

verus! {

/// What follows `key` on the first line that begins with it.
pub open spec fn field_line(s: Seq<char>, key: Seq<char>) -> Option<Seq<char>>
    decreases s.len(),
{
    let i = first_at(s, '\n') as int;
    let line = s.take(i);
    if key.is_prefix_of(line) {
        Some(line.skip(key.len() as int))
    } else if i < s.len() {
        field_line(s.skip(i + 1), key)
    } else {
        None
    }
}

/// Whether `c` is white space.
pub open spec fn is_space(c: char) -> bool {
    let n = c as int;
    ||| 9 <= n <= 13
    ||| n == 0x20
    ||| n == 0x85
    ||| n == 0xa0
    ||| n == 0x1680
    ||| 0x2000 <= n <= 0x200a
    ||| n == 0x2028
    ||| n == 0x2029
    ||| n == 0x202f
    ||| n == 0x205f
    ||| n == 0x3000
}

/// `s` from its first character that is not white space on.
pub open spec fn trimmed(s: Seq<char>) -> Seq<char>
    decreases s.len(),
{
    if s.len() > 0 && is_space(s[0]) {
        trimmed(s.skip(1))
    } else {
        s
    }
}

/// `s` up to its first white space.
pub open spec fn word(s: Seq<char>) -> Seq<char>
    decreases s.len(),
{
    if s.len() == 0 || is_space(s[0]) {
        Seq::empty()
    } else {
        s.take(1) + word(s.skip(1))
    }
}

/// The first word of `s`, if there is one.
pub open spec fn first_word(s: Seq<char>) -> Option<Seq<char>> {
    if trimmed(s).len() > 0 {
        Some(word(trimmed(s)))
    } else {
        None
    }
}

/// The figure that stands in kibibytes behind `key`, in bytes: it has to be the
/// first word behind the key on the first line that begins with it. One too
/// large to be written in bytes is no figure.
pub open spec fn figure(s: Seq<char>, key: Seq<char>) -> Option<int> {
    match field_line(s, key) {
        None => None,
        Some(rest) => match first_word(rest) {
            None => None,
            Some(w) => match unsigned_in(w, u64::MAX as int) {
                None => None,
                Some(kb) => if kb * 1024 <= u64::MAX {
                    Some(kb * 1024)
                } else {
                    None
                },
            },
        },
    }
}

/// Whether an optional figure is the one stated.
pub open spec fn is_figure(r: Option<u64>, f: Option<int>) -> bool {
    match r {
        Some(n) => f == Some(n as int),
        None => f is None,
    }
}

fn is_white(c: char) -> (b: bool)
    ensures
        b == is_space(c),
{
    let n: u32 = c as u32;
    (9 <= n && n <= 13) || n == 0x20 || n == 0x85 || n == 0xa0 || n == 0x1680 || (0x2000 <= n && n
        <= 0x200a) || n == 0x2028 || n == 0x2029 || n == 0x202f || n == 0x205f || n == 0x3000
}

/// The first word of `s`, if there is one.
fn first_word_of<'a>(s: &'a str) -> (r: Option<&'a str>)
    ensures
        match r {
            Some(w) => first_word(s@) == Some(w@),
            None => first_word(s@) is None,
        },
{
    let v: Vec<char> = chars_of(s);
    let mut i: usize = 0;
    assert(s@.skip(0) =~= s@);
    while i < v.len() && is_white(v[i])
        invariant
            v@ == s@,
            i <= s@.len(),
            trimmed(s@.skip(i as int)) == trimmed(s@),
        decreases s@.len() - i,
    {
        assert(s@.skip(i as int).skip(1) =~= s@.skip(i + 1));
        assert(s@.skip(i as int)[0] == s@[i as int]);
        i = i + 1;
    }
    proof {
        if i < s@.len() {
            assert(s@.skip(i as int)[0] == s@[i as int]);
        }
        assert(trimmed(s@) == s@.skip(i as int));
    }
    if i == v.len() {
        return None;
    }
    let ghost t = s@.skip(i as int);
    let mut j: usize = i;
    assert(s@.subrange(i as int, i as int) + word(t) =~= word(t));
    while j < v.len() && !is_white(v[j])
        invariant
            v@ == s@,
            i <= j <= s@.len(),
            s@.subrange(i as int, j as int) + word(s@.skip(j as int)) == word(t),
        decreases s@.len() - j,
    {
        proof {
            let u = s@.skip(j as int);
            assert(u[0] == s@[j as int]);
            assert(u.skip(1) =~= s@.skip(j + 1));
            assert(s@.subrange(i as int, j + 1) + word(s@.skip(j + 1)) =~= s@.subrange(
                i as int,
                j as int,
            ) + (u.take(1) + word(u.skip(1))));
        }
        j = j + 1;
    }
    proof {
        let u = s@.skip(j as int);
        if j < s@.len() {
            assert(u[0] == s@[j as int]);
        }
        assert(word(u) =~= Seq::<char>::empty());
        assert(s@.subrange(i as int, j as int) =~= word(t));
    }
    Some(s.substring_char(i, j))
}

/// What follows `key` on the first line of `text` that begins with it.
fn find_field<'a>(text: &'a str, key: &str) -> (r: Option<&'a str>)
    ensures
        match r {
            Some(rest) => field_line(text@, key@) == Some(rest@),
            None => field_line(text@, key@) is None,
        },
{
    let mut rest: &'a str = text;
    loop
        invariant
            field_line(rest@, key@) == field_line(text@, key@),
        decreases rest@.len(),
    {
        proof {
            first_at_facts(rest@, '\n');
        }
        match split_once(rest, '\n') {
            Some((line, after)) => {
                match strip_prefix(line, key) {
                    Some(found) => {
                        return Some(found);
                    },
                    None => {
                        rest = after;
                    },
                }
            },
            None => {
                assert(rest@.take(rest@.len() as int) =~= rest@);
                return strip_prefix(rest, key);
            },
        }
    }
}

/// The figure behind `key`, in bytes.
pub fn meminfo_field(text: &str, key: &str) -> (r: Option<u64>)
    ensures
        is_figure(r, figure(text@, key@)),
{
    match find_field(text, key) {
        None => None,
        Some(rest) => {
            match first_word_of(rest) {
                None => None,
                Some(w) => {
                    match parse_unsigned(w, u64::MAX) {
                        None => None,
                        Some(kb) => {
                            if kb <= u64::MAX / 1024 {
                                Some(kb * 1024)
                            } else {
                                None
                            }
                        },
                    }
                },
            }
        },
    }
}

/// Free memory in bytes, if the text tells.
pub fn available_ram_bytes(text: &str) -> (r: Option<u64>)
    ensures
        is_figure(r, figure(text@, "MemAvailable:"@)),
{
    meminfo_field(text, "MemAvailable:")
}

/// All memory in bytes, if the text tells.
pub fn total_ram_bytes(text: &str) -> (r: Option<u64>)
    ensures
        is_figure(r, figure(text@, "MemTotal:"@)),
{
    meminfo_field(text, "MemTotal:")
}

/// Swap in use in bytes, if the text tells: the total less what is free, and
/// nothing where more is free than there is.
pub fn swap_used_bytes(text: &str) -> (r: Option<u64>)
    ensures
        match (figure(text@, "SwapTotal:"@), figure(text@, "SwapFree:"@)) {
            (Some(total), Some(free)) => r is Some && r->0 == if total >= free {
                total - free
            } else {
                0
            },
            _ => r is None,
        },
{
    match meminfo_field(text, "SwapTotal:") {
        None => None,
        Some(total) => {
            match meminfo_field(text, "SwapFree:") {
                None => None,
                Some(free) => Some(total.saturating_sub(free)),
            }
        },
    }
}

/// Whether a line of `s` begins at `p`.
pub open spec fn begins_line(s: Seq<char>, p: int) -> bool {
    p == 0 || 0 < p <= s.len() && s[p - 1] == '\n'
}

/// Whether `p` is the beginning of the first line of `s` that begins with `key`.
pub open spec fn is_first_line_with(s: Seq<char>, key: Seq<char>, p: int) -> bool {
    &&& 0 <= p <= s.len()
    &&& begins_line(s, p)
    &&& key.is_prefix_of(s.skip(p))
    &&& forall|q: int|
        0 <= q < p && begins_line(s, q) ==> !key.is_prefix_of(#[trigger] s.skip(q))
}

/// `s` up to the end of its first line.
pub open spec fn line_of(s: Seq<char>) -> Seq<char> {
    s.take(first_at(s, '\n') as int)
}

proof fn the_first_line_is_found(s: Seq<char>, key: Seq<char>, p: int)
    requires
        is_first_line_with(s, key, p),
        !key.contains('\n'),
    ensures
        field_line(s, key) == Some(line_of(s.skip(p)).skip(key.len() as int)),
        key.is_prefix_of(line_of(s.skip(p))),
    decreases s.len(),
{
    first_at_facts(s, '\n');
    let i = first_at(s, '\n') as int;
    let line = s.take(i);
    assert(s.skip(0) =~= s);
    if p == 0 {
        if i < key.len() {
            assert(key[i] == s[i]);
            assert(key.contains('\n'));
        }
        assert(key.is_prefix_of(line)) by {
            assert(line.take(key.len() as int) =~= s.take(key.len() as int));
        }
    } else {
        assert(i <= p - 1);
        if key.is_prefix_of(line) {
            assert(s.take(key.len() as int) =~= line.take(key.len() as int));
            assert(key.is_prefix_of(s.skip(0)));
            assert(begins_line(s, 0));
        }
        let rest = s.skip(i + 1);
        let r = p - i - 1;
        assert(rest.skip(r) =~= s.skip(p));
        assert(begins_line(rest, r));
        assert forall|q: int| 0 <= q < r && begins_line(rest, q) implies !key.is_prefix_of(
            #[trigger] rest.skip(q),
        ) by {
            assert(rest.skip(q) =~= s.skip(i + 1 + q));
            assert(begins_line(s, i + 1 + q));
        }
        the_first_line_is_found(rest, key, r);
    }
}

proof fn blanks_are_trimmed(gap: Seq<char>, w: Seq<char>)
    requires
        forall|i: int| 0 <= i < gap.len() ==> #[trigger] gap[i] == ' ',
        w.len() > 0,
        !is_space(w[0]),
    ensures
        trimmed(gap + w) == w,
    decreases gap.len(),
{
    if gap.len() == 0 {
        assert(gap + w =~= w);
    } else {
        blanks_are_trimmed(gap.skip(1), w);
        assert((gap + w).skip(1) =~= gap.skip(1) + w);
        assert((gap + w)[0] == ' ');
    }
}

proof fn a_word_ends_at_a_blank(w: Seq<char>, tail: Seq<char>)
    requires
        forall|i: int| 0 <= i < w.len() ==> !is_space(#[trigger] w[i]),
        tail.len() == 0 || is_space(tail[0]),
    ensures
        word(w + tail) == w,
    decreases w.len(),
{
    if w.len() == 0 {
        assert(w + tail =~= tail);
        assert(word(tail) =~= w);
    } else {
        a_word_ends_at_a_blank(w.skip(1), tail);
        assert((w + tail).skip(1) =~= w.skip(1) + tail);
        assert((w + tail).take(1) + w.skip(1) =~= w);
    }
}

/// A figure is read as it is written: on the first line that begins with the key, behind
/// any number of blanks, in decimal and in kibibytes; whatever follows a blank or the
/// line does not matter, nor what other lines hold.
pub proof fn a_written_figure_is_read(
    text: &str,
    key: &str,
    p: int,
    gap: Seq<char>,
    n: nat,
    rest: Seq<char>,
    r: Option<u64>,
)
    requires
        call_ensures(meminfo_field, (text, key), r),
        is_first_line_with(text@, key@, p),
        !key@.contains('\n'),
        text@.skip(p) == key@ + gap + decimal(n) + rest,
        forall|i: int| 0 <= i < gap.len() ==> #[trigger] gap[i] == ' ',
        rest.len() == 0 || rest[0] == ' ' || rest[0] == '\n',
    ensures
        n * 1024 <= u64::MAX ==> r is Some && r->0 == n * 1024,
        n * 1024 > u64::MAX ==> r is None,
{
    let s = text@;
    let k = key@;
    let d = decimal(n);
    the_first_line_is_found(s, k, p);
    decimal_writes_the_number(n);
    let from_key = s.skip(p);
    first_at_facts(from_key, '\n');
    let end = first_at(from_key, '\n') as int;
    let line = line_of(from_key);
    let body = gap + d;
    if end < k.len() + body.len() {
        let j = end - k.len();
        assert(from_key[end] == body[j]);
        if j >= gap.len() {
            assert(is_digit(d[j - gap.len()]));
        }
    }
    let tail = line.skip((k.len() + body.len()) as int);
    assert(line.skip(k.len() as int) =~= gap + (d + tail));
    if tail.len() > 0 {
        assert(tail[0] == from_key[(k.len() + body.len()) as int]);
        assert(tail[0] == rest[0]);
        assert(tail[0] != '\n');
    }
    assert forall|i: int| 0 <= i < d.len() implies !is_space(#[trigger] d[i]) by {
        assert(is_digit(d[i]));
    }
    assert((d + tail)[0] == d[0]);
    blanks_are_trimmed(gap, d + tail);
    a_word_ends_at_a_blank(d, tail);
    written_numbers_are_read_back(n, u64::MAX as int);
}

proof fn no_line_is_found(s: Seq<char>, key: Seq<char>)
    requires
        forall|q: int|
            0 <= q <= s.len() && begins_line(s, q) ==> !key.is_prefix_of(#[trigger] s.skip(q)),
    ensures
        field_line(s, key) is None,
    decreases s.len(),
{
    first_at_facts(s, '\n');
    let i = first_at(s, '\n') as int;
    let line = s.take(i);
    assert(s.skip(0) =~= s);
    if key.is_prefix_of(line) {
        assert(s.take(key.len() as int) =~= line.take(key.len() as int));
        assert(key.is_prefix_of(s.skip(0)));
        assert(begins_line(s, 0));
    }
    if i < s.len() {
        let rest = s.skip(i + 1);
        assert forall|q: int| 0 <= q <= rest.len() && begins_line(rest, q) implies !key.is_prefix_of(
            #[trigger] rest.skip(q),
        ) by {
            assert(rest.skip(q) =~= s.skip(i + 1 + q));
            assert(begins_line(s, i + 1 + q));
        }
        no_line_is_found(rest, key);
    }
}

/// Where no line begins with the key there is no figure.
pub proof fn a_missing_figure_is_not_made_up(text: &str, key: &str, r: Option<u64>)
    requires
        call_ensures(meminfo_field, (text, key), r),
        forall|q: int|
            0 <= q <= text@.len() && begins_line(text@, q) ==> !key@.is_prefix_of(
                #[trigger] text@.skip(q),
            ),
    ensures
        r is None,
{
    no_line_is_found(text@, key@);
}

/// Each figure is the one behind its own key, and swap in use and free swap make up all
/// of it.
pub proof fn figures_stand_behind_their_keys(
    text: &str,
    free: Option<u64>,
    all: Option<u64>,
    used: Option<u64>,
    a: Option<u64>,
    b: Option<u64>,
    c: Option<u64>,
    d: Option<u64>,
)
    requires
        call_ensures(available_ram_bytes, (text,), free),
        call_ensures(total_ram_bytes, (text,), all),
        call_ensures(swap_used_bytes, (text,), used),
        call_ensures(meminfo_field, (text, "MemAvailable:"), a),
        call_ensures(meminfo_field, (text, "MemTotal:"), b),
        call_ensures(meminfo_field, (text, "SwapTotal:"), c),
        call_ensures(meminfo_field, (text, "SwapFree:"), d),
    ensures
        free == a,
        all == b,
        used is Some <==> c is Some && d is Some,
        used is Some && d->0 <= c->0 ==> used->0 + d->0 == c->0,
        used is Some && d->0 > c->0 ==> used->0 == 0,
{
}

} // verus!
