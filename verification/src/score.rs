//! Which weights of a snapshot an encoding is scored on.

use vstd::prelude::*;
use crate::catalog::SourceTensor;
use crate::convert::scored_tensors;
use crate::encode::{sample, stride_of};
use crate::names::{kind_of, Kind};
use crate::order::{sorted_by, Ranking};
use crate::text::chars_of;

verus! {

/// Whether `a` and `b` agree up to place `k`, and `a` comes first by what follows:
/// it ends there, or its character there is smaller.
pub open spec fn first_by_place(a: Seq<char>, b: Seq<char>, k: int) -> bool {
    &&& 0 <= k < b.len()
    &&& k <= a.len()
    &&& forall|i: int| 0 <= i < k ==> a[i] == b[i]
    &&& k == a.len() || (a[k] as int) < (b[k] as int)
}

/// Whether name `a` comes before name `b` alphabetically.
pub open spec fn name_before(a: Seq<char>, b: Seq<char>) -> bool {
    exists|k: int| first_by_place(a, b, k)
}

proof fn names_are_strict(a: Seq<char>)
    ensures
        !name_before(a, a),
{
}

proof fn names_are_transitive(a: Seq<char>, b: Seq<char>, c: Seq<char>)
    requires
        name_before(a, b),
        name_before(b, c),
    ensures
        name_before(a, c),
{
    let k = choose|k: int| first_by_place(a, b, k);
    let m = choose|m: int| first_by_place(b, c, m);
    assert(first_by_place(a, c, if k < m { k } else { m }));
}

fn is_name_before(a: &Vec<char>, b: &Vec<char>) -> (r: bool)
    ensures
        r == name_before(a@, b@),
        !r ==> a@ == b@ || name_before(b@, a@),
{
    let mut k: usize = 0;
    while k < a.len() && k < b.len() && a[k] == b[k]
        invariant
            k <= a@.len(),
            k <= b@.len(),
            forall|i: int| 0 <= i < k ==> a@[i] == b@[i],
        decreases a@.len() - k,
    {
        k = k + 1;
    }
    let r: bool = if k == b.len() {
        false
    } else if k == a.len() {
        true
    } else {
        a[k] < b[k]
    };
    proof {
        if r {
            assert(first_by_place(a@, b@, k as int));
        } else {
            if k == a@.len() {
                assert(a@ =~= b@);
            } else {
                assert(first_by_place(b@, a@, k as int));
            }
            if name_before(a@, b@) {
                let j = choose|j: int| first_by_place(a@, b@, j);
                if j < k {
                    assert(a@[j] == b@[j]);
                } else if k < j {
                    assert(a@[k as int] == b@[k as int]);
                }
            }
        }
    }
    r
}

/// Places by the names there, alphabetically; of one name, the lower place first.
struct ByName<'a> {
    names: &'a Vec<Vec<char>>,
}

impl<'a> Ranking for ByName<'a> {
    closed spec fn places(&self) -> nat {
        self.names@.len()
    }

    closed spec fn before(&self, a: usize, b: usize) -> bool {
        let (x, y) = (self.names@[a as int]@, self.names@[b as int]@);
        name_before(x, y) || (x == y && a < b)
    }

    proof fn is_strict(&self, a: usize) {
        names_are_strict(self.names@[a as int]@);
    }

    proof fn is_transitive(&self, a: usize, b: usize, c: usize) {
        let (x, y, z) = (self.names@[a as int]@, self.names@[b as int]@, self.names@[c as int]@);
        if name_before(x, y) && name_before(y, z) {
            names_are_transitive(x, y, z);
        }
    }

    proof fn is_total(&self, a: usize, b: usize) {
        names_are_comparable(self.names@[a as int]@, self.names@[b as int]@);
    }

    fn is_before(&self, a: usize, b: usize) -> (r: bool) {
        if is_name_before(&self.names[a], &self.names[b]) {
            return true;
        }
        let back: bool = is_name_before(&self.names[b], &self.names[a]);
        proof {
            names_are_strict(self.names@[a as int]@);
        }
        !back && a < b
    }
}

proof fn names_are_comparable(a: Seq<char>, b: Seq<char>)
    ensures
        a == b || name_before(a, b) || name_before(b, a),
    decreases a.len(),
{
    if a.len() == 0 {
        if b.len() == 0 {
            assert(a =~= b);
        } else {
            assert(first_by_place(a, b, 0));
        }
    } else if b.len() == 0 || a[0] != b[0] {
        if b.len() > 0 && (a[0] as int) < (b[0] as int) {
            assert(first_by_place(a, b, 0));
        } else {
            assert(first_by_place(b, a, 0));
        }
    } else {
        let (s, t) = (a.skip(1), b.skip(1));
        names_are_comparable(s, t);
        if s == t {
            assert forall|i: int| 0 <= i < a.len() implies a[i] == b[i] by {
                if i > 0 {
                    assert(s[i - 1] == t[i - 1]);
                }
            }
            assert(a.len() == b.len());
            assert(a =~= b);
        } else if name_before(s, t) {
            let k = choose|k: int| first_by_place(s, t, k);
            assert forall|i: int| 0 <= i < k + 1 implies a[i] == b[i] by {
                if i > 0 {
                    assert(s[i - 1] == t[i - 1]);
                }
            }
            assert(first_by_place(a, b, k + 1));
        } else {
            let k = choose|k: int| first_by_place(t, s, k);
            assert forall|i: int| 0 <= i < k + 1 implies b[i] == a[i] by {
                if i > 0 {
                    assert(t[i - 1] == s[i - 1]);
                }
            }
            assert(first_by_place(b, a, k + 1));
        }
    }
}

/// Whether a tensor is scored: a routed expert, or else a resident weight.
pub open spec fn is_scored(t: SourceTensor, n_layers: nat, experts: bool) -> bool {
    kind_of(t.name@, n_layers, false, false, 1) == if experts {
        Kind::X
    } else {
        Kind::Q
    }
}

/// Whether `all` lists every scored tensor once, by name.
pub open spec fn is_population(
    all: Seq<usize>,
    tensors: Seq<SourceTensor>,
    n_layers: nat,
    experts: bool,
) -> bool {
    &&& all.no_duplicates()
    &&& forall|i: usize| #[trigger]
        all.contains(i) <==> i < tensors.len() && is_scored(tensors[i as int], n_layers, experts)
    &&& forall|a: int, b: int|
        0 <= a < b < all.len() ==> !name_before(
            tensors[#[trigger] all[b] as int].name@,
            tensors[#[trigger] all[a] as int].name@,
        )
}

/// Whether `r` are at most `limit` of `all`, taken at even distances.
pub open spec fn is_sample(r: Seq<usize>, all: Seq<usize>, limit: nat) -> bool {
    let stride = stride_of(all.len(), limit);
    &&& r.len() <= limit
    &&& r.len() == limit || r.len() * stride >= all.len()
    &&& forall|k: int| 0 <= k < r.len() ==> is_at(all, k * stride, #[trigger] r[k])
}

/// Whether `x` stands at place `i` of `all`.
pub open spec fn is_at(all: Seq<usize>, i: int, x: usize) -> bool {
    0 <= i < all.len() && all[i] == x
}

/// The tensors that an encoding is scored on when at most `limit` are wanted:
/// taken at even distances from all of them in the order of their names, so that
/// every layer is looked at and not the first ones alone.
pub fn quant_error(
    tensors: &Vec<SourceTensor>,
    n_layers: usize,
    limit: usize,
    experts: bool,
) -> (r: Vec<usize>)
    ensures
        exists|all: Seq<usize>| #[trigger]
            is_population(all, tensors@, n_layers as nat, experts) && is_sample(
                r@,
                all,
                limit as nat,
            ),
{
    let listed: Vec<usize> = scored_tensors(tensors, n_layers, experts);
    let ghost listing = listed@;
    let mut names: Vec<Vec<char>> = Vec::new();
    for i in 0..tensors.len()
        invariant
            names@.len() == i,
            forall|j: int| 0 <= j < i ==> (#[trigger] names@[j])@ == tensors@[j].name@,
    {
        names.push(chars_of(tensors[i].name.as_str()));
    }
    let by = ByName { names: &names };
    assert(listing.no_duplicates());
    let all: Vec<usize> = sorted_by(&by, listed);
    proof {
        let wanted = |i: int|
            kind_of(tensors@[i].name@, n_layers as nat, false, false, 1) == if experts {
                Kind::X
            } else {
                Kind::Q
            };
        assert forall|i: usize| #[trigger] all@.contains(i) <==> i < tensors@.len() && is_scored(
            tensors@[i as int],
            n_layers as nat,
            experts,
        ) by {
            if all@.contains(i) {
                assert(listing.contains(i));
                let k = choose|k: int| 0 <= k < listing.len() && listing[k] == i;
                assert(wanted(listing[k] as int));
            }
            if i < tensors@.len() && is_scored(tensors@[i as int], n_layers as nat, experts) {
                assert(wanted(i as int));
                assert(listing.contains(i));
            }
        }
        assert forall|a: int, b: int| 0 <= a < b < all@.len() implies !name_before(
            tensors@[#[trigger] all@[b] as int].name@,
            tensors@[#[trigger] all@[a] as int].name@,
        ) by {
            assert(by.before(all@[a], all@[b]));
            assert(all@.contains(all@[a]) && all@.contains(all@[b]));
            let (x, y) = (tensors@[all@[a] as int].name@, tensors@[all@[b] as int].name@);
            if name_before(y, x) {
                names_are_strict(x);
                if name_before(x, y) {
                    names_are_transitive(x, y, x);
                }
            }
        }
        assert(is_population(all@, tensors@, n_layers as nat, experts));
    }
    let picks: Vec<usize> = sample(all.len(), limit);
    let mut r: Vec<usize> = Vec::new();
    for k in 0..picks.len()
        invariant
            forall|j: int| 0 <= j < picks@.len() ==> #[trigger] picks@[j] < all@.len(),
            r@.len() == k,
            forall|j: int| 0 <= j < k ==> #[trigger] r@[j] == all@[picks@[j] as int],
    {
        r.push(all[picks[k]]);
    }
    proof {
        let stride = stride_of(all@.len(), limit as nat);
        assert forall|k: int| 0 <= k < r@.len() implies is_at(
            all@,
            k * stride,
            #[trigger] r@[k],
        ) by {
            assert(picks@[k] == k * stride);
        }
        assert(is_sample(r@, all@, limit as nat));
    }
    r
}

/// Names are in the order of a dictionary: the first character in which they differ
/// decides, and a name comes before its continuations.
pub proof fn names_are_in_the_order_of_a_dictionary(
    p: Seq<char>,
    c: char,
    d: char,
    x: Seq<char>,
    y: Seq<char>,
)
    ensures
        (c as int) < (d as int) ==> name_before(p + seq![c] + x, p + seq![d] + y),
        (c as int) < (d as int) ==> !name_before(p + seq![d] + y, p + seq![c] + x),
        name_before(p, p + seq![c] + x),
        !name_before(p + seq![c] + x, p),
        !name_before(p, p),
{
    let k = p.len() as int;
    let a = p + seq![c] + x;
    let b = p + seq![d] + y;
    assert(first_by_place(p, a, k));
    if (c as int) < (d as int) {
        assert(first_by_place(a, b, k));
        if name_before(b, a) {
            names_are_transitive(a, b, a);
        }
    }
    if name_before(a, p) {
        names_are_transitive(p, a, p);
    }
}

/// What is scored is of the wanted class, comes once and in the order of the names, and
/// there is as much of it as is wanted: where there is no more than that, all of it.
pub proof fn a_score_looks_at_the_wanted_class(
    tensors: Vec<SourceTensor>,
    n_layers: usize,
    limit: usize,
    experts: bool,
    r: Vec<usize>,
    k: int,
    i: usize,
)
    requires
        call_ensures(quant_error, (&tensors, n_layers, limit, experts), r),
        i < tensors@.len(),
    ensures
        r@.len() <= limit,
        0 <= k < r@.len() ==> r@[k] < tensors@.len() && kind_of(
            tensors@[r@[k] as int].name@,
            n_layers as nat,
            false,
            false,
            1,
        ) == if experts {
            Kind::X
        } else {
            Kind::Q
        },
        forall|a: int, b: int|
            0 <= a < b < r@.len() ==> #[trigger] r@[a] != #[trigger] r@[b] && !name_before(
                tensors@[r@[b] as int].name@,
                tensors@[r@[a] as int].name@,
            ),
        r@.len() < limit && kind_of(tensors@[i as int].name@, n_layers as nat, false, false, 1)
            == if experts {
            Kind::X
        } else {
            Kind::Q
        } ==> r@.contains(i),
{
    let all = choose|all: Seq<usize>| #[trigger]
        is_population(all, tensors@, n_layers as nat, experts) && is_sample(r@, all, limit as nat);
    let stride = stride_of(all.len(), limit as nat);
    assert(stride >= 1);
    if 0 <= k < r@.len() {
        assert(is_at(all, k * stride, r@[k]));
        assert(all.contains(r@[k]));
    }
    assert forall|a: int, b: int| 0 <= a < b < r@.len() implies #[trigger] r@[a]
        != #[trigger] r@[b] && !name_before(
        tensors@[r@[b] as int].name@,
        tensors@[r@[a] as int].name@,
    ) by {
        assert(is_at(all, a * stride, r@[a]));
        assert(is_at(all, b * stride, r@[b]));
        assert(a * stride < b * stride) by (nonlinear_arith)
            requires
                a < b,
                stride >= 1,
        ;
    }
    if r@.len() < limit && is_scored(tensors@[i as int], n_layers as nat, experts) {
        let n = all.len() as int;
        let l = limit as int;
        vstd::arithmetic::div_mod::lemma_fundamental_div_mod(n, l);
        if n >= l {
            vstd::arithmetic::div_mod::lemma_div_is_ordered(l, n, l);
            vstd::arithmetic::div_mod::lemma_div_by_self(l);
            let q = n / l;
            assert(r@.len() * q < n) by (nonlinear_arith)
                requires
                    r@.len() + 1 <= l,
                    q >= 1,
                    n == l * q + n % l,
                    n % l >= 0,
            ;
        } else {
            vstd::arithmetic::div_mod::lemma_basic_div(n, l);
            assert(stride == 1);
            assert(r@.len() * 1 == r@.len());
            assert(all.contains(i));
            let j = choose|j: int| 0 <= j < all.len() && all[j] == i;
            assert(is_at(all, j * stride, r@[j]));
            assert(j * 1 == j);
        }
    }
}

} // verus!
