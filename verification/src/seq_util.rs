//! Sequence operations shared by the container tree: replacing one entry by
//! a run of entries, finding an entry, and the multiset facts about them.

use vstd::prelude::*;

verus! {

broadcast use vstd::seq_lib::group_to_multiset_ensures;

/// `s` with the entry at `i` replaced by the entries of `ins`.
pub open spec fn splice<T>(s: Seq<T>, i: int, ins: Seq<T>) -> Seq<T> {
    s.take(i) + ins + s.skip(i + 1)
}

/// `s` with the entries in `drop` left out (order kept).
pub open spec fn without<T>(s: Seq<T>, drop: Seq<T>) -> Seq<T> {
    s.filter(|x: T| !drop.contains(x))
}

/// `s` with `x` moved to the front, if it occurs in `s`.
pub open spec fn move_to_front<T>(s: Seq<T>, x: T) -> Seq<T> {
    if s.contains(x) {
        seq![x] + s.remove(s.index_of(x))
    } else {
        s
    }
}

pub proof fn lemma_index_of_unique<T>(s: Seq<T>, i: int)
    requires
        s.no_duplicates(),
        0 <= i < s.len(),
    ensures
        s.index_of(s[i]) == i,
        s.contains(s[i]),
{
    assert(s.contains(s[i]));
}

/// The multiset of a splice: the replaced entry leaves, the inserted ones come.
pub proof fn lemma_splice_multiset<T>(s: Seq<T>, i: int, ins: Seq<T>)
    requires
        0 <= i < s.len(),
    ensures
        splice(s, i, ins).to_multiset() =~= s.to_multiset().remove(s[i]).add(ins.to_multiset()),
{
    vstd::seq_lib::lemma_multiset_commutative(s.take(i) + ins, s.skip(i + 1));
    vstd::seq_lib::lemma_multiset_commutative(s.take(i), ins);
    vstd::seq_lib::lemma_multiset_commutative(s.take(i), s.skip(i + 1));
    assert(s.remove(i) =~= s.take(i) + s.skip(i + 1));
    assert(s.remove(i).to_multiset() =~= s.to_multiset().remove(s[i]));
}

/// Mapping commutes with splicing.
pub proof fn lemma_splice_map<A, B>(s: Seq<A>, i: int, ins: Seq<A>, f: spec_fn(A) -> B)
    requires
        0 <= i < s.len(),
    ensures
        splice(s, i, ins).map_values(f) =~= splice(s.map_values(f), i, ins.map_values(f)),
{
}

/// Membership in a splice.
pub proof fn lemma_splice_contains<T>(s: Seq<T>, i: int, ins: Seq<T>, x: T)
    requires
        0 <= i < s.len(),
        s.no_duplicates(),
    ensures
        splice(s, i, ins).contains(x) <==> ((s.contains(x) && x != s[i]) || ins.contains(x)),
{
    let r = splice(s, i, ins);
    if r.contains(x) {
        let k = choose|k: int| 0 <= k < r.len() && r[k] == x;
        if k < i {
            assert(s[k] == x);
        } else if k < i + ins.len() {
            assert(ins[k - i] == x);
        } else {
            assert(s[k - ins.len() + 1] == x);
        }
    }
    if s.contains(x) && x != s[i] {
        let k = choose|k: int| 0 <= k < s.len() && s[k] == x;
        if k < i {
            assert(r[k] == x);
        } else {
            assert(r[k - 1 + ins.len()] == x);
        }
    }
    if ins.contains(x) {
        let k = choose|k: int| 0 <= k < ins.len() && ins[k] == x;
        assert(r[i + k] == x);
    }
}

/// A splice of duplicate-free parts that share nothing is duplicate free.
pub proof fn lemma_splice_no_dup<T>(s: Seq<T>, i: int, ins: Seq<T>)
    requires
        0 <= i < s.len(),
        s.no_duplicates(),
        ins.no_duplicates(),
        forall|x: T| ins.contains(x) ==> !s.contains(x),
    ensures
        splice(s, i, ins).no_duplicates(),
{
    let r = splice(s, i, ins);
    assert forall|a: int, b: int| 0 <= a < r.len() && 0 <= b < r.len() && a != b implies r[a]
        != r[b] by {
        let src_a = if a < i { a } else if a < i + ins.len() { -1 } else { a - ins.len() + 1 };
        let src_b = if b < i { b } else if b < i + ins.len() { -1 } else { b - ins.len() + 1 };
        if src_a >= 0 && src_b >= 0 {
            assert(r[a] == s[src_a]);
            assert(r[b] == s[src_b]);
        } else if src_a < 0 && src_b < 0 {
            assert(r[a] == ins[a - i]);
            assert(r[b] == ins[b - i]);
        } else if src_a < 0 {
            assert(r[a] == ins[a - i]);
            assert(ins.contains(r[a]));
            assert(r[b] == s[src_b]);
        } else {
            assert(r[b] == ins[b - i]);
            assert(ins.contains(r[b]));
            assert(r[a] == s[src_a]);
        }
    }
}

/// Two duplicate-free sequences with the same multiset and a duplicate-free
/// sequence: a multiset equal to that of a duplicate-free sequence belongs
/// only to duplicate-free sequences.
pub proof fn lemma_same_multiset_no_dup<T>(a: Seq<T>, b: Seq<T>)
    requires
        a.to_multiset() =~= b.to_multiset(),
        b.no_duplicates(),
    ensures
        a.no_duplicates(),
{
    b.lemma_multiset_has_no_duplicates();
    a.lemma_multiset_has_no_duplicates_conv();
}

/// Same multiset means same membership.
pub proof fn lemma_same_multiset_contains<T>(a: Seq<T>, b: Seq<T>, x: T)
    requires
        a.to_multiset() =~= b.to_multiset(),
    ensures
        a.contains(x) <==> b.contains(x),
{
    assert(a.contains(x) <==> a.to_multiset().count(x) > 0);
    assert(b.contains(x) <==> b.to_multiset().count(x) > 0);
}

/// Membership in a filtered sequence.
pub proof fn lemma_filter_contains_iff<T>(s: Seq<T>, p: spec_fn(T) -> bool, x: T)
    ensures
        s.filter(p).contains(x) <==> (s.contains(x) && p(x)),
{
    if s.filter(p).contains(x) {
        s.lemma_filter_contains_rev(p, x);
        let k = choose|k: int| 0 <= k < s.filter(p).len() && s.filter(p)[k] == x;
        s.lemma_filter_pred(p, k);
    }
    if s.contains(x) && p(x) {
        let k = choose|k: int| 0 <= k < s.len() && s[k] == x;
        s.lemma_filter_contains(p, k);
    }
}

/// Filtering keeps a sequence duplicate free.
pub proof fn lemma_filter_no_dup<T>(s: Seq<T>, p: spec_fn(T) -> bool)
    requires
        s.no_duplicates(),
    ensures
        s.filter(p).no_duplicates(),
    decreases s.len(),
{
    reveal(Seq::filter);
    if s.len() > 0 {
        let rest = s.drop_last();
        assert(rest.no_duplicates());
        lemma_filter_no_dup(rest, p);
        if p(s.last()) {
            let f = rest.filter(p);
            if f.contains(s.last()) {
                lemma_filter_contains_iff(rest, p, s.last());
                let k = choose|k: int| 0 <= k < rest.len() && rest[k] == s.last();
                assert(s[k] == s[s.len() - 1]);
            }
            assert forall|a: int, b: int| 0 <= a < f.push(s.last()).len() && 0 <= b < f.push(
                s.last(),
            ).len() && a != b implies f.push(s.last())[a] != f.push(s.last())[b] by {
                if a < f.len() && b < f.len() {
                } else if a < f.len() {
                    assert(f.contains(f[a]));
                } else {
                    assert(f.contains(f[b]));
                }
            }
        }
    }
}

/// Concatenating duplicate-free sequences that share nothing.
pub proof fn lemma_concat_no_dup<T>(a: Seq<T>, b: Seq<T>)
    requires
        a.no_duplicates(),
        b.no_duplicates(),
        forall|x: T| a.contains(x) ==> !b.contains(x),
    ensures
        (a + b).no_duplicates(),
        forall|x: T| #[trigger] (a + b).contains(x) <==> (a.contains(x) || b.contains(x)),
{
    let c = a + b;
    assert forall|i: int, j: int| 0 <= i < c.len() && 0 <= j < c.len() && i != j implies c[i]
        != c[j] by {
        if i < a.len() && j >= a.len() {
            assert(a.contains(c[i]));
            assert(b[j - a.len()] == c[j]);
        } else if i >= a.len() && j < a.len() {
            assert(a.contains(c[j]));
            assert(b[i - a.len()] == c[i]);
        } else if i >= a.len() {
            assert(b[i - a.len()] == c[i]);
            assert(b[j - a.len()] == c[j]);
        }
    }
    assert forall|x: T| #[trigger] c.contains(x) <==> (a.contains(x) || b.contains(x)) by {
        if c.contains(x) {
            let k = choose|k: int| 0 <= k < c.len() && c[k] == x;
            if k < a.len() {
                assert(a[k] == x);
            } else {
                assert(b[k - a.len()] == x);
            }
        }
        if a.contains(x) {
            let k = choose|k: int| 0 <= k < a.len() && a[k] == x;
            assert(c[k] == x);
        }
        if b.contains(x) {
            let k = choose|k: int| 0 <= k < b.len() && b[k] == x;
            assert(c[k + a.len()] == x);
        }
    }
}

/// The front and the rest of a duplicate-free sequence share nothing.
pub proof fn lemma_take_skip_disjoint<T>(s: Seq<T>, i: int)
    requires
        s.no_duplicates(),
        0 <= i <= s.len(),
    ensures
        s.take(i).no_duplicates(),
        s.skip(i).no_duplicates(),
        forall|x: T| s.take(i).contains(x) ==> !s.skip(i).contains(x),
        forall|x: T|
            #[trigger] s.contains(x) <==> (s.take(i).contains(x) || s.skip(i).contains(x)),
{
    assert(s =~= s.take(i) + s.skip(i));
    assert forall|x: T| s.take(i).contains(x) implies !s.skip(i).contains(x) by {
        let a = choose|a: int| 0 <= a < i && s.take(i)[a] == x;
        if s.skip(i).contains(x) {
            let b = choose|b: int| 0 <= b < s.len() - i && s.skip(i)[b] == x;
            assert(s[a] == s[b + i]);
        }
    }
    assert forall|x: T| #[trigger] s.contains(x) <==> (s.take(i).contains(x) || s.skip(i).contains(
        x,
    )) by {
        if s.contains(x) {
            let k = choose|k: int| 0 <= k < s.len() && s[k] == x;
            if k < i {
                assert(s.take(i)[k] == x);
            } else {
                assert(s.skip(i)[k - i] == x);
            }
        }
    }
}

/// Filtering keeps a sequence whose entries all pass.
pub proof fn lemma_filter_all<T>(s: Seq<T>, p: spec_fn(T) -> bool)
    requires
        forall|i: int| 0 <= i < s.len() ==> p(#[trigger] s[i]),
    ensures
        s.filter(p) == s,
    decreases s.len(),
{
    reveal(Seq::filter);
    if s.len() > 0 {
        lemma_filter_all(s.drop_last(), p);
        assert(s.drop_last().push(s.last()) =~= s);
    }
}

/// Leaving out the entry at `i` from the rest of a duplicate-free
/// sequence starting at `i`.
pub proof fn lemma_without_first<T>(s: Seq<T>, i: int)
    requires
        s.no_duplicates(),
        0 <= i < s.len(),
    ensures
        without(s.skip(i), seq![s[i]]) == s.skip(i + 1),
{
    let p = |x: T| !seq![s[i]].contains(x);
    assert(s.skip(i) =~= seq![s[i]] + s.skip(i + 1));
    Seq::filter_distributes_over_add(seq![s[i]], s.skip(i + 1), p);
    assert(seq![s[i]].contains(s[i])) by {
        assert(seq![s[i]][0] == s[i]);
    }
    assert(seq![s[i]] =~= Seq::<T>::empty().push(s[i]));
    Seq::<T>::empty().lemma_filter_push(s[i], p);
    Seq::<T>::empty().lemma_filter_len(p);
    assert(seq![s[i]].filter(p) =~= Seq::<T>::empty());
    assert forall|k: int| 0 <= k < s.skip(i + 1).len() implies p(#[trigger] s.skip(i + 1)[k]) by {
        if seq![s[i]].contains(s.skip(i + 1)[k]) {
            assert(seq![s[i]][0] == s[i]);
            assert(s[i + 1 + k] == s[i]);
        }
    }
    lemma_filter_all(s.skip(i + 1), p);
    assert(Seq::<T>::empty() + s.skip(i + 1) =~= s.skip(i + 1));
}

/// Keeping only `a` from a duplicate-free sequence holding it.
pub proof fn lemma_keep_single<T>(s: Seq<T>, a: T)
    requires
        s.no_duplicates(),
        s.contains(a),
    ensures
        s.filter(|u: T| seq![a].contains(u)) == seq![a],
{
    let q = |u: T| seq![a].contains(u);
    let f = s.filter(q);
    lemma_filter_no_dup(s, q);
    assert(seq![a].contains(a)) by {
        assert(seq![a][0] == a);
    }
    lemma_filter_contains_iff(s, q, a);
    assert forall|k: int| 0 <= k < f.len() implies f[k] == a by {
        s.lemma_filter_pred(q, k);
        assert(seq![a].contains(f[k]));
        let m = choose|m: int| 0 <= m < 1 && seq![a][m] == f[k];
    }
    if f.len() > 1 {
        assert(f[0] == a && f[1] == a);
    }
    assert(f.len() >= 1);
    assert(f =~= seq![a]);
}

/// Duplicate-free sequences with the same members have the same multiset.
pub proof fn lemma_same_members_multiset<T>(a: Seq<T>, b: Seq<T>)
    requires
        a.no_duplicates(),
        b.no_duplicates(),
        forall|x: T| a.contains(x) <==> b.contains(x),
    ensures
        a.to_multiset() =~= b.to_multiset(),
{
    a.lemma_multiset_has_no_duplicates();
    b.lemma_multiset_has_no_duplicates();
    assert forall|x: T| a.to_multiset().count(x) == b.to_multiset().count(x) by {
        if a.contains(x) {
            assert(a.to_multiset().contains(x));
            assert(b.to_multiset().contains(x));
        } else {
            assert(a.to_multiset().count(x) == 0);
            assert(b.to_multiset().count(x) == 0);
        }
    }
}

/// Position of `x` in `v`, if any.
pub fn position_usize(v: &Vec<usize>, x: usize) -> (r: Option<usize>)
    ensures
        r matches Some(i) ==> i < v@.len() && v@[i as int] == x,
        r is None <==> !v@.contains(x),
{
    let mut i: usize = 0;
    while i < v.len()
        invariant
            i <= v@.len(),
            forall|k: int| 0 <= k < i ==> v@[k] != x,
        decreases v@.len() - i,
    {
        if v[i] == x {
            return Some(i);
        }
        i = i + 1;
    }
    None
}

/// Position of `x` in `v`, if any.
pub fn position_u128(v: &Vec<u128>, x: u128) -> (r: Option<usize>)
    ensures
        r matches Some(i) ==> i < v@.len() && v@[i as int] == x,
        r is None <==> !v@.contains(x),
{
    let mut i: usize = 0;
    while i < v.len()
        invariant
            i <= v@.len(),
            forall|k: int| 0 <= k < i ==> v@[k] != x,
        decreases v@.len() - i,
    {
        if v[i] == x {
            return Some(i);
        }
        i = i + 1;
    }
    None
}

/// Appends to `r` the entries of `v` from `from` on that are not in `drop`.
pub fn push_without_usize(r: &mut Vec<usize>, v: &Vec<usize>, from: usize, drop: &Vec<usize>)
    requires
        from <= v@.len(),
    ensures
        final(r)@ == old(r)@ + without(v@.skip(from as int), drop@),
{
    let ghost r0 = r@;
    let mut k: usize = from;
    while k < v.len()
        invariant
            from <= k <= v@.len(),
            r@ == r0 + without(v@.subrange(from as int, k as int), drop@),
        decreases v@.len() - k,
    {
        let x = v[k];
        proof {
            assert(v@.subrange(from as int, k + 1) =~= v@.subrange(from as int, k as int).push(x));
            v@.subrange(from as int, k as int).lemma_filter_push(x, |y: usize| !drop@.contains(y));
        }
        if position_usize(drop, x).is_none() {
            r.push(x);
        }
        k = k + 1;
        proof {
            assert(r@ =~= r0 + without(v@.subrange(from as int, k as int), drop@));
        }
    }
    proof {
        assert(v@.subrange(from as int, k as int) =~= v@.skip(from as int));
    }
}

/// Appends to `r` the entries of `v` from `from` on that are not in `drop`.
pub fn push_without_u128(r: &mut Vec<u128>, v: &Vec<u128>, from: usize, drop: &Vec<u128>)
    requires
        from <= v@.len(),
    ensures
        final(r)@ == old(r)@ + without(v@.skip(from as int), drop@),
{
    let ghost r0 = r@;
    let mut k: usize = from;
    while k < v.len()
        invariant
            from <= k <= v@.len(),
            r@ == r0 + without(v@.subrange(from as int, k as int), drop@),
        decreases v@.len() - k,
    {
        let x = v[k];
        proof {
            assert(v@.subrange(from as int, k + 1) =~= v@.subrange(from as int, k as int).push(x));
            v@.subrange(from as int, k as int).lemma_filter_push(x, |y: u128| !drop@.contains(y));
        }
        if position_u128(drop, x).is_none() {
            r.push(x);
        }
        k = k + 1;
        proof {
            assert(r@ =~= r0 + without(v@.subrange(from as int, k as int), drop@));
        }
    }
    proof {
        assert(v@.subrange(from as int, k as int) =~= v@.skip(from as int));
    }
}

/// The entries of `v` that are in `keep`, in order.
pub fn keep_u128(v: &Vec<u128>, keep: &Vec<u128>) -> (r: Vec<u128>)
    ensures
        r@ == v@.filter(|u: u128| keep@.contains(u)),
{
    let mut r: Vec<u128> = Vec::new();
    let mut k: usize = 0;
    while k < v.len()
        invariant
            k <= v@.len(),
            r@ == v@.take(k as int).filter(|u: u128| keep@.contains(u)),
        decreases v@.len() - k,
    {
        let x = v[k];
        proof {
            assert(v@.take(k + 1) =~= v@.take(k as int).push(x));
            v@.take(k as int).lemma_filter_push(x, |u: u128| keep@.contains(u));
        }
        if position_u128(keep, x).is_some() {
            r.push(x);
        }
        k = k + 1;
    }
    proof {
        assert(v@.take(k as int) =~= v@);
    }
    r
}

/// Appends to `r` the first `n` entries of `v`.
pub fn push_prefix<T: Copy>(r: &mut Vec<T>, v: &Vec<T>, n: usize)
    requires
        n <= v@.len(),
    ensures
        final(r)@ == old(r)@ + v@.take(n as int),
{
    let ghost r0 = r@;
    let mut k: usize = 0;
    while k < n
        invariant
            k <= n <= v@.len(),
            r@ == r0 + v@.take(k as int),
        decreases n - k,
    {
        r.push(v[k]);
        k = k + 1;
        proof {
            assert(r@ =~= r0 + v@.take(k as int));
        }
    }
}

/// A copy of `v`.
pub fn copy_vec<T: Copy>(v: &Vec<T>) -> (r: Vec<T>)
    ensures
        r@ == v@,
{
    let mut r: Vec<T> = Vec::new();
    let mut k: usize = 0;
    while k < v.len()
        invariant
            k <= v@.len(),
            r@ == v@.take(k as int),
        decreases v@.len() - k,
    {
        r.push(v[k]);
        k = k + 1;
        assert(r@ =~= v@.take(k as int));
    }
    assert(v@.take(k as int) =~= v@);
    r
}

/// `v` with the entry at `i` replaced by the entries of `ins`.
pub fn splice_vec<T: Copy>(v: &Vec<T>, i: usize, ins: &Vec<T>) -> (r: Vec<T>)
    requires
        i < v@.len(),
    ensures
        r@ == splice(v@, i as int, ins@),
{
    let mut r: Vec<T> = Vec::new();
    let mut k: usize = 0;
    while k < i
        invariant
            k <= i < v@.len(),
            r@ == v@.take(k as int),
        decreases i - k,
    {
        r.push(v[k]);
        k = k + 1;
        assert(r@ =~= v@.take(k as int));
    }
    let mut m: usize = 0;
    while m < ins.len()
        invariant
            k == i < v@.len(),
            m <= ins@.len(),
            r@ == v@.take(i as int) + ins@.take(m as int),
        decreases ins@.len() - m,
    {
        r.push(ins[m]);
        m = m + 1;
        assert(r@ =~= v@.take(i as int) + ins@.take(m as int));
    }
    assert(ins@.take(m as int) =~= ins@);
    let n = v.len();
    let mut k: usize = i + 1;
    while k < v.len()
        invariant
            i < k <= v@.len(),
            r@ == v@.take(i as int) + ins@ + v@.subrange(i + 1, k as int),
        decreases v@.len() - k,
    {
        r.push(v[k]);
        k = k + 1;
        assert(r@ =~= v@.take(i as int) + ins@ + v@.subrange(i + 1, k as int));
    }
    assert(v@.subrange(i + 1, k as int) =~= v@.skip(i + 1));
    r
}

/// Among the `n + 1` values `0..=n`, one is not an entry of the `n`
/// entries of `s`.
pub proof fn lemma_free_value(s: Seq<int>)
    ensures
        exists|c: int| 0 <= c <= s.len() && !s.contains(c),
{
    let n = s.len() as int;
    if forall|c: int| 0 <= c <= n ==> s.contains(c) {
        let r = vstd::set_lib::set_int_range(0, n + 1);
        vstd::set_lib::lemma_int_range(0, n + 1);
        s.lemma_cardinality_of_set();
        vstd::seq_lib::seq_to_set_is_finite(s);
        assert(r.subset_of(s.to_set())) by {
            assert forall|c: int| r.contains(c) implies s.to_set().contains(c) by {
                assert(s.contains(c));
            }
        }
        vstd::set_lib::lemma_len_subset(r, s.to_set());
    }
}

/// A filter of a prefix is no longer than the filter of the whole, and
/// shorter when the prefix stops before a kept entry.
pub proof fn lemma_filter_prefix_len<T>(s: Seq<T>, i: int, p: spec_fn(T) -> bool)
    requires
        0 <= i <= s.len(),
    ensures
        s.take(i).filter(p).len() <= s.filter(p).len(),
        i < s.len() && p(s[i]) ==> s.take(i).filter(p).len() < s.filter(p).len(),
    decreases s.len() - i,
{
    if i < s.len() {
        lemma_filter_prefix_len(s, i + 1, p);
        assert(s.take(i + 1) =~= s.take(i).push(s[i]));
        s.take(i).lemma_filter_push(s[i], p);
    } else {
        assert(s.take(i) =~= s);
    }
}

} // verus!
