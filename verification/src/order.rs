//! Putting places in order, and picking the best of them.

use vstd::prelude::*;

verus! {

/// An order of places: strict, and no two places are equal in it.
pub trait Ranking {
    /// How many places there are.
    spec fn places(&self) -> nat;

    /// Whether place `a` comes before place `b`.
    spec fn before(&self, a: usize, b: usize) -> bool;

    proof fn is_strict(&self, a: usize)
        requires
            a < self.places(),
        ensures
            !self.before(a, a),
    ;

    proof fn is_transitive(&self, a: usize, b: usize, c: usize)
        requires
            a < self.places(),
            b < self.places(),
            c < self.places(),
            self.before(a, b),
            self.before(b, c),
        ensures
            self.before(a, c),
    ;

    proof fn is_total(&self, a: usize, b: usize)
        requires
            a < self.places(),
            b < self.places(),
            a != b,
        ensures
            self.before(a, b) || self.before(b, a),
    ;

    fn is_before(&self, a: usize, b: usize) -> (r: bool)
        requires
            a < self.places(),
            b < self.places(),
        ensures
            r == self.before(a, b),
    ;
}

/// Whether the places `r` stand in the order of `s`.
pub open spec fn in_order<R: Ranking>(s: R, r: Seq<usize>) -> bool {
    forall|i: int, j: int| 0 <= i < j < r.len() ==> s.before(#[trigger] r[i], #[trigger] r[j])
}

/// Whether `r` are places of `s`.
pub open spec fn are_places<R: Ranking>(s: R, r: Seq<usize>) -> bool {
    forall|i: int| 0 <= i < r.len() ==> #[trigger] r[i] < s.places()
}

/// Whether every place of `out` comes before every place of `r` from `i` on.
spec fn all_before<R: Ranking>(s: R, out: Seq<usize>, r: Seq<usize>, i: int) -> bool {
    forall|x: int, y: int|
        0 <= x < out.len() && i <= y < r.len() ==> s.before(#[trigger] out[x], #[trigger] r[y])
}

/// Whether `out` holds exactly the first `i` places of `a` and the first `j` of
/// `b`.
spec fn holds_heads(out: Seq<usize>, a: Seq<usize>, i: int, b: Seq<usize>, j: int) -> bool {
    &&& out.len() == i + j
    &&& forall|x: usize| #[trigger] out.contains(x) <==> a.take(i).contains(x) || b.take(j).contains(x)
}

proof fn head_grows(a: Seq<usize>, i: int, x: usize)
    requires
        0 <= i < a.len(),
    ensures
        a.take(i + 1).contains(x) <==> a.take(i).contains(x) || x == a[i],
{
    let longer = a.take(i + 1);
    let shorter = a.take(i);
    if longer.contains(x) {
        let k = choose|k: int| 0 <= k < longer.len() && longer[k] == x;
        if k < i {
            assert(shorter[k] == x);
        }
    }
    if shorter.contains(x) {
        let k = choose|k: int| 0 <= k < shorter.len() && shorter[k] == x;
        assert(longer[k] == x);
    }
    assert(longer[i] == a[i]);
}

proof fn take_from_a<R: Ranking>(
    s: R,
    out: Seq<usize>,
    a: Seq<usize>,
    i: int,
    b: Seq<usize>,
    j: int,
)
    requires
        in_order(s, a),
        in_order(s, b),
        in_order(s, out),
        all_before(s, out, a, i),
        all_before(s, out, b, j),
        holds_heads(out, a, i, b, j),
        are_places(s, a),
        are_places(s, b),
        0 <= i < a.len(),
        0 <= j <= b.len(),
        j < b.len() ==> s.before(a[i], b[j]),
    ensures
        in_order(s, out.push(a[i])),
        all_before(s, out.push(a[i]), a, i + 1),
        all_before(s, out.push(a[i]), b, j),
        holds_heads(out.push(a[i]), a, i + 1, b, j),
{
    let l = out.push(a[i]);
    assert forall|x: int, y: int| 0 <= x < l.len() && i + 1 <= y < a.len() implies s.before(
        #[trigger] l[x],
        #[trigger] a[y],
    ) by {
        if x < out.len() {
            assert(s.before(out[x], a[y]));
        } else {
            assert(s.before(a[i], a[y]));
        }
    }
    assert forall|x: int, y: int| 0 <= x < l.len() && j <= y < b.len() implies s.before(
        #[trigger] l[x],
        #[trigger] b[y],
    ) by {
        if x < out.len() {
            assert(s.before(out[x], b[y]));
        } else if y > j {
            s.is_transitive(a[i], b[j], b[y]);
        }
    }
    assert forall|x: usize| #[trigger] l.contains(x) <==> a.take(i + 1).contains(x) || b.take(
        j,
    ).contains(x) by {
        head_grows(a, i, x);
        if l.contains(x) {
            let k = choose|k: int| 0 <= k < l.len() && l[k] == x;
            if k < out.len() {
                assert(out[k] == x);
                assert(out.contains(x));
            }
        }
        if out.contains(x) {
            let k = choose|k: int| 0 <= k < out.len() && out[k] == x;
            assert(l[k] == x);
        }
        assert(l[out.len() as int] == a[i]);
    }
}

proof fn heads_swap(out: Seq<usize>, a: Seq<usize>, i: int, b: Seq<usize>, j: int)
    requires
        holds_heads(out, a, i, b, j),
    ensures
        holds_heads(out, b, j, a, i),
{
}

/// Two lists of places, each in order, as one.
fn merge<R: Ranking>(s: &R, a: &Vec<usize>, b: &Vec<usize>) -> (out: Vec<usize>)
    requires
        are_places(*s, a@),
        are_places(*s, b@),
        in_order(*s, a@),
        in_order(*s, b@),
        forall|x: usize| !(a@.contains(x) && #[trigger] b@.contains(x)),
    ensures
        in_order(*s, out@),
        out@.len() == a@.len() + b@.len(),
        forall|x: usize| #[trigger] out@.contains(x) <==> a@.contains(x) || b@.contains(x),
{
    let mut out: Vec<usize> = Vec::new();
    let mut i: usize = 0;
    let mut j: usize = 0;
    while i < a.len() || j < b.len()
        invariant
            i <= a@.len(),
            j <= b@.len(),
            are_places(*s, a@),
            are_places(*s, b@),
            in_order(*s, a@),
            in_order(*s, b@),
            forall|x: usize| !(a@.contains(x) && #[trigger] b@.contains(x)),
            in_order(*s, out@),
            all_before(*s, out@, a@, i as int),
            all_before(*s, out@, b@, j as int),
            holds_heads(out@, a@, i as int, b@, j as int),
        decreases a@.len() - i + b@.len() - j,
    {
        if i < a.len() && (j == b.len() || s.is_before(a[i], b[j])) {
            proof {
                take_from_a(*s, out@, a@, i as int, b@, j as int);
            }
            out.push(a[i]);
            i = i + 1;
        } else {
            proof {
                if i < a@.len() {
                    assert(a@.contains(a@[i as int]));
                    assert(b@.contains(b@[j as int]));
                    s.is_total(a@[i as int], b@[j as int]);
                }
                heads_swap(out@, a@, i as int, b@, j as int);
                take_from_a(*s, out@, b@, j as int, a@, i as int);
                heads_swap(out@.push(b@[j as int]), b@, j + 1, a@, i as int);
            }
            out.push(b[j]);
            j = j + 1;
        }
    }
    assert(a@.take(a@.len() as int) =~= a@);
    assert(b@.take(b@.len() as int) =~= b@);
    out
}

/// The places `v`, in order.
pub fn sorted_by<R: Ranking>(s: &R, v: Vec<usize>) -> (out: Vec<usize>)
    requires
        are_places(*s, v@),
        v@.no_duplicates(),
    ensures
        in_order(*s, out@),
        out@.no_duplicates(),
        out@.len() == v@.len(),
        forall|x: usize| #[trigger] out@.contains(x) <==> v@.contains(x),
    decreases v@.len(),
{
    let n: usize = v.len();
    if n <= 1 {
        return v;
    }
    let mid: usize = n / 2;
    let mut left: Vec<usize> = Vec::new();
    let mut right: Vec<usize> = Vec::new();
    for i in 0..n
        invariant
            n == v@.len(),
            mid == n / 2,
            left@ == v@.take(if i < mid { i as int } else { mid as int }),
            right@ == v@.subrange(mid as int, if i < mid { mid as int } else { i as int }),
    {
        if i < mid {
            left.push(v[i]);
        } else {
            right.push(v[i]);
        }
        assert(left@ =~= v@.take(if i + 1 < mid { i + 1 } else { mid as int }));
        assert(right@ =~= v@.subrange(mid as int, if i + 1 < mid { mid as int } else { i + 1 }));
    }
    let ghost l0 = left@;
    let ghost r0 = right@;
    proof {
        assert forall|x: usize| v@.contains(x) <==> l0.contains(x) || r0.contains(x) by {
            if v@.contains(x) {
                let k = choose|k: int| 0 <= k < v@.len() && v@[k] == x;
                if k < mid {
                    assert(l0[k] == x);
                } else {
                    assert(r0[k - mid] == x);
                }
            }
            if l0.contains(x) {
                let k = choose|k: int| 0 <= k < l0.len() && l0[k] == x;
                assert(v@[k] == x);
            }
            if r0.contains(x) {
                let k = choose|k: int| 0 <= k < r0.len() && r0[k] == x;
                assert(v@[k + mid] == x);
            }
        }
        assert forall|x: usize| !(l0.contains(x) && #[trigger] r0.contains(x)) by {
            if l0.contains(x) && r0.contains(x) {
                let k = choose|k: int| 0 <= k < l0.len() && l0[k] == x;
                let m = choose|m: int| 0 <= m < r0.len() && r0[m] == x;
                assert(v@[k] == v@[m + mid]);
            }
        }
        assert(l0.no_duplicates());
        assert(r0.no_duplicates());
    }
    let a: Vec<usize> = sorted_by(s, left);
    let b: Vec<usize> = sorted_by(s, right);
    proof {
        assert forall|i: int| 0 <= i < a@.len() implies #[trigger] a@[i] < s.places() by {
            assert(a@.contains(a@[i]));
            assert(l0.contains(a@[i]));
            assert(v@.contains(a@[i]));
        }
        assert forall|i: int| 0 <= i < b@.len() implies #[trigger] b@[i] < s.places() by {
            assert(b@.contains(b@[i]));
            assert(r0.contains(b@[i]));
            assert(v@.contains(b@[i]));
        }
    }
    let out: Vec<usize> = merge(s, &a, &b);
    assert forall|i: int, j: int| 0 <= i < j < out@.len() implies out@[i] != out@[j] by {
        assert(s.before(out@[i], out@[j]));
        assert(out@.contains(out@[i]));
        assert(v@.contains(out@[i]));
        s.is_strict(out@[i]);
    }
    out
}

/// Whether place `a` comes before place `b`: the higher score first, then the
/// lower place.
pub open spec fn better(s: Seq<u64>, a: usize, b: usize) -> bool {
    s[a as int] > s[b as int] || (s[a as int] == s[b as int] && a < b)
}

/// Whether the places `r` stand best first.
pub open spec fn best_first(s: Seq<u64>, r: Seq<usize>) -> bool {
    forall|i: int, j: int| 0 <= i < j < r.len() ==> better(s, #[trigger] r[i], #[trigger] r[j])
}

/// Whether the places `r` are places of `s`.
pub open spec fn within(s: Seq<u64>, r: Seq<usize>) -> bool {
    forall|i: int| 0 <= i < r.len() ==> #[trigger] r[i] < s.len()
}

/// Places by their scores, the best first.
struct Scores<'a> {
    scores: &'a Vec<u64>,
}

impl<'a> Ranking for Scores<'a> {
    closed spec fn places(&self) -> nat {
        self.scores@.len()
    }

    closed spec fn before(&self, a: usize, b: usize) -> bool {
        better(self.scores@, a, b)
    }

    proof fn is_strict(&self, a: usize) {
    }

    proof fn is_transitive(&self, a: usize, b: usize, c: usize) {
    }

    proof fn is_total(&self, a: usize, b: usize) {
    }

    fn is_before(&self, a: usize, b: usize) -> (r: bool) {
        self.scores[a] > self.scores[b] || (self.scores[a] == self.scores[b] && a < b)
    }
}

/// The places `v`, best first.
pub fn sorted(s: &Vec<u64>, v: Vec<usize>) -> (out: Vec<usize>)
    requires
        within(s@, v@),
        v@.no_duplicates(),
    ensures
        best_first(s@, out@),
        out@.no_duplicates(),
        out@.len() == v@.len(),
        forall|x: usize| #[trigger] out@.contains(x) <==> v@.contains(x),
{
    let by = Scores { scores: s };
    let out: Vec<usize> = sorted_by(&by, v);
    assert forall|i: int, j: int| 0 <= i < j < out@.len() implies better(
        s@,
        #[trigger] out@[i],
        #[trigger] out@[j],
    ) by {
        assert(by.before(out@[i], out@[j]));
    }
    out
}

/// Whether `sel` picks the `k` best places of `s`: it holds as many as there are
/// up to `k`, in rising order, and each comes before every place left out.
pub open spec fn is_top(sel: Seq<usize>, s: Seq<u64>, k: nat) -> bool {
    &&& sel.len() == if k < s.len() { k } else { s.len() }
    &&& forall|i: int, j: int| 0 <= i < j < sel.len() ==> sel[i] < sel[j]
    &&& within(s, sel)
    &&& forall|a: usize, b: usize|
        #![trigger sel.contains(a), sel.contains(b)]
        sel.contains(a) && b < s.len() && !sel.contains(b) ==> better(s, a, b)
}

/// The `k` best places of `s`, in rising order.
pub fn top(s: &Vec<u64>, k: usize) -> (sel: Vec<usize>)
    ensures
        is_top(sel@, s@, k as nat),
{
    let n: usize = s.len();
    let keep: usize = if k < n { k } else { n };
    let mut all: Vec<usize> = Vec::new();
    let mut picked: Vec<bool> = Vec::new();
    for i in 0..n
        invariant
            all@.len() == i,
            picked@.len() == i,
            forall|j: int| 0 <= j < i ==> all@[j] == j,
            forall|j: int| 0 <= j < i ==> !picked@[j],
    {
        all.push(i);
        picked.push(false);
    }
    let ghost places = all@;
    let order: Vec<usize> = sorted(s, all);
    proof {
        assert forall|x: usize| order@.contains(x) <==> x < n by {
            if x < n {
                assert(places[x as int] == x);
            }
        }
        assert forall|i: int| 0 <= i < order@.len() implies #[trigger] order@[i] < n by {
            assert(order@.contains(order@[i]));
        }
    }
    for i in 0..keep
        invariant
            keep <= n,
            n == s@.len(),
            order@.len() == n,
            picked@.len() == n,
            forall|j: int| 0 <= j < order@.len() ==> #[trigger] order@[j] < n,
            forall|x: int|
                0 <= x < n ==> #[trigger] picked@[x] == order@.take(i as int).contains(x as usize),
    {
        let ghost before = picked@;
        picked.set(order[i], true);
        proof {
            assert forall|x: int| 0 <= x < n implies #[trigger] picked@[x] == order@.take(
                i + 1,
            ).contains(x as usize) by {
                head_grows(order@, i as int, x as usize);
                assert(before[x] == order@.take(i as int).contains(x as usize));
            }
        }
    }
    let ghost chosen = order@.take(keep as int);
    let mut sel: Vec<usize> = Vec::new();
    for x in 0..n
        invariant
            n == picked@.len(),
            n == s@.len(),
            forall|y: int| 0 <= y < n ==> #[trigger] picked@[y] == chosen.contains(y as usize),
            forall|i: int| 0 <= i < sel@.len() ==> #[trigger] sel@[i] < x,
            forall|i: int, j: int| 0 <= i < j < sel@.len() ==> sel@[i] < sel@[j],
            forall|y: usize| #[trigger] sel@.contains(y) <==> y < x && chosen.contains(y),
    {
        let ghost before = sel@;
        if picked[x] {
            sel.push(x);
        }
        proof {
            assert forall|y: usize| #[trigger] sel@.contains(y) <==> y < x + 1 && chosen.contains(
                y,
            ) by {
                if picked@[x as int] {
                    if before.contains(y) {
                        let k = choose|k: int| 0 <= k < before.len() && before[k] == y;
                        assert(sel@[k] == y);
                    }
                    if sel@.contains(y) {
                        let k = choose|k: int| 0 <= k < sel@.len() && sel@[k] == y;
                        if k < before.len() {
                            assert(before[k] == y);
                        }
                    }
                    assert(sel@[before.len() as int] == x);
                }
            }
        }
    }
    proof {
        assert(chosen.no_duplicates());
        assert(sel@.no_duplicates());
        assert forall|y: usize| chosen.contains(y) implies y < n by {
            let k = choose|k: int| 0 <= k < chosen.len() && chosen[k] == y;
            assert(order@[k] == y);
        }
        assert(sel@.to_set() =~= chosen.to_set());
        sel@.unique_seq_to_set();
        chosen.unique_seq_to_set();
        assert forall|a: usize, b: usize|
            #![trigger sel@.contains(a), sel@.contains(b)]
            sel@.contains(a) && b < s@.len() && !sel@.contains(b) implies better(s@, a, b) by {
            let i = choose|i: int| 0 <= i < chosen.len() && chosen[i] == a;
            assert(order@[i] == a);
            assert(order@.contains(b));
            let j = choose|j: int| 0 <= j < order@.len() && order@[j] == b;
            if j < keep {
                assert(chosen[j] == b);
            }
            assert(better(s@, order@[i], order@[j]));
        }
    }
    sel
}

/// There is only one way to pick the `k` best.
pub proof fn top_is_unique(a: Seq<usize>, b: Seq<usize>, s: Seq<u64>, k: nat)
    requires
        is_top(a, s, k),
        is_top(b, s, k),
    ensures
        a == b,
{
    assert(a.no_duplicates());
    assert(b.no_duplicates());
    a.unique_seq_to_set();
    b.unique_seq_to_set();
    assert forall|x: usize| a.contains(x) implies b.contains(x) by {
        both_pick(a, b, s, k, x);
    }
    assert forall|x: usize| b.contains(x) implies a.contains(x) by {
        both_pick(b, a, s, k, x);
    }
    rising_is_unique(a, b);
}

proof fn both_pick(a: Seq<usize>, b: Seq<usize>, s: Seq<u64>, k: nat, x: usize)
    requires
        is_top(a, s, k),
        is_top(b, s, k),
        a.no_duplicates(),
        b.no_duplicates(),
        a.contains(x),
    ensures
        b.contains(x),
{
    if !b.contains(x) {
        // some place of `b` is not in `a`, and each of the two would come first
        a.unique_seq_to_set();
        b.unique_seq_to_set();
        if forall|y: usize| b.contains(y) ==> a.contains(y) {
            assert(a.to_set().contains(x));
            assert(b.to_set().subset_of(a.to_set().remove(x)));
            vstd::seq_lib::seq_to_set_is_finite(a);
            vstd::set_lib::lemma_len_subset(b.to_set(), a.to_set().remove(x));
        }
        let y = choose|y: usize| b.contains(y) && !a.contains(y);
        let i = choose|i: int| 0 <= i < a.len() && a[i] == x;
        assert(x < s.len());
        let j = choose|j: int| 0 <= j < b.len() && b[j] == y;
        assert(y < s.len());
        assert(a.contains(x) && !a.contains(y));
        assert(b.contains(y) && !b.contains(x));
        assert(better(s, x, y));
        assert(better(s, y, x));
    }
}

proof fn rising_is_unique(a: Seq<usize>, b: Seq<usize>)
    requires
        forall|i: int, j: int| 0 <= i < j < a.len() ==> a[i] < a[j],
        forall|i: int, j: int| 0 <= i < j < b.len() ==> b[i] < b[j],
        a.len() == b.len(),
        forall|x: usize| a.contains(x) <==> b.contains(x),
    ensures
        a == b,
{
    assert forall|i: int| 0 <= i < a.len() implies a[i] == b[i] by {
        rising_agrees(a, b, i);
    }
    assert(a =~= b);
}

proof fn rising_agrees(a: Seq<usize>, b: Seq<usize>, i: int)
    requires
        forall|i: int, j: int| 0 <= i < j < a.len() ==> a[i] < a[j],
        forall|i: int, j: int| 0 <= i < j < b.len() ==> b[i] < b[j],
        a.len() == b.len(),
        forall|x: usize| a.contains(x) <==> b.contains(x),
        0 <= i < a.len(),
    ensures
        a[i] == b[i],
    decreases i,
{
    assert forall|j: int| 0 <= j < i implies a[j] == b[j] by {
        rising_agrees(a, b, j);
    }
    assert(a.contains(a[i]));
    assert(b.contains(b[i]));
    let p = choose|p: int| 0 <= p < b.len() && b[p] == a[i];
    let q = choose|q: int| 0 <= q < a.len() && a[q] == b[i];
    assert(b.contains(a[i]) && a.contains(b[i]));
    if p < i {
        assert(a[p] == a[i]);
    }
    if q < i {
        assert(b[q] == b[i]);
    }
}

/// Where everything fits, everything is picked.
pub proof fn picking_all_picks_everything(sel: Seq<usize>, s: Seq<u64>, k: nat)
    requires
        is_top(sel, s, k),
        s.len() <= k,
        s.len() <= usize::MAX,
    ensures
        sel == Seq::new(s.len(), |i: int| i as usize),
{
    let all = Seq::new(s.len(), |i: int| i as usize);
    assert forall|i: int| 0 <= i < sel.len() implies sel[i] == all[i] by {
        rising_is_at_least(sel, i);
        rising_is_at_most(sel, s.len() as int, i);
    }
    assert(sel =~= all);
}

proof fn rising_is_at_least(a: Seq<usize>, i: int)
    requires
        forall|i: int, j: int| 0 <= i < j < a.len() ==> a[i] < a[j],
        0 <= i < a.len(),
    ensures
        a[i] >= i,
    decreases i,
{
    if i > 0 {
        rising_is_at_least(a, i - 1);
    }
}

proof fn rising_is_at_most(a: Seq<usize>, n: int, i: int)
    requires
        forall|i: int, j: int| 0 <= i < j < a.len() ==> a[i] < a[j],
        forall|i: int| 0 <= i < a.len() ==> #[trigger] a[i] < n,
        a.len() == n,
        0 <= i < a.len(),
    ensures
        a[i] <= i,
    decreases a.len() - i,
{
    if i + 1 < a.len() {
        rising_is_at_most(a, n, i + 1);
    }
}

/// A sorted list goes from the highest score to the lowest, and of equal scores from the
/// lowest place to the highest; it has the places that it was made from.
pub proof fn a_sorted_list_goes_down(
    s: Vec<u64>,
    v: Vec<usize>,
    out: Vec<usize>,
    i: int,
    j: int,
    x: usize,
)
    requires
        within(s@, v@),
        v@.no_duplicates(),
        call_ensures(sorted, (&s, v), out),
        0 <= i < j < out@.len(),
    ensures
        s@[out@[i] as int] >= s@[out@[j] as int],
        s@[out@[i] as int] == s@[out@[j] as int] ==> out@[i] < out@[j],
        out@.len() == v@.len(),
        out@.contains(x) <==> v@.contains(x),
{
    assert(better(s@, out@[i], out@[j]));
}

/// No place that is left out has a higher score than one that is picked, and of equal
/// scores the lower places are picked. As many are picked as are wanted, or all.
pub proof fn what_is_left_out_is_no_better(
    s: Vec<u64>,
    k: usize,
    sel: Vec<usize>,
    i: int,
    b: usize,
)
    requires
        call_ensures(top, (&s, k), sel),
        0 <= i < sel@.len(),
        b < s@.len(),
    ensures
        sel@.len() <= k && sel@.len() <= s@.len(),
        sel@.len() == k || sel@.len() == s@.len(),
        sel@[i] < s@.len(),
        i + 1 < sel@.len() ==> sel@[i] < sel@[i + 1],
        !sel@.contains(b) ==> s@[b as int] <= s@[sel@[i] as int],
        !sel@.contains(b) && s@[b as int] == s@[sel@[i] as int] ==> b > sel@[i],
{
    assert(sel@.contains(sel@[i]));
    if !sel@.contains(b) {
        assert(better(s@, sel@[i], b));
    }
}

} // verus!
