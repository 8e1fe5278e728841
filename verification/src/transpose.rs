//! The in-place transpose core: a cycle-chasing permutation of a flat
//! row-major buffer, with a bitmap guard so each cycle is walked exactly once.

use crate::bits::BitMap;
use vstd::prelude::*;

verus! {

use vstd::arithmetic::div_mod::{
    lemma_div_pos_is_pos,
    lemma_fundamental_div_mod,
    lemma_fundamental_div_mod_converse,
    lemma_mod_division_less_than_divisor,
};
use vstd::arithmetic::mul::lemma_mul_is_commutative;
use vstd::set_lib::{lemma_int_range, lemma_len_subset, set_int_range};

/// After relabeling a buffer to `r` rows and `c` columns, the value that must
/// end at flat offset `p` sits at offset `src_of(p, r, c)`: position
/// `(i, j) = (p / c, p % c)` of the new shape held position `(j, i)` of the
/// old `c x r` shape, whose old row-major offset is `j * r + i`.
pub open spec fn src_of(p: int, r: int, c: int) -> int {
    (p % c) * r + p / c
}

/// The inverse of `src_of`: the offset at which the value now at `p` must end.
pub open spec fn dst_of(p: int, r: int, c: int) -> int {
    (p % r) * c + p / r
}

/// `src_of` maps the buffer's offsets into the buffer.
pub proof fn lemma_src_in_range(p: int, r: int, c: int)
    requires
        0 < r,
        0 < c,
        0 <= p < r * c,
    ensures
        0 <= src_of(p, r, c) < r * c,
{
    lemma_mod_division_less_than_divisor(p, c);
    lemma_div_pos_is_pos(p, c);
    lemma_fundamental_div_mod(p, c);
    assert(p / c < r) by (nonlinear_arith)
        requires
            0 < c,
            p < r * c,
            p == c * (p / c) + p % c,
            0 <= p % c,
    ;
    assert((p % c) * r + p / c < r * c) by (nonlinear_arith)
        requires
            0 <= p % c,
            (p % c) < c,
            0 <= p / c,
            p / c < r,
    ;
}

/// Applying `src_of` and then `dst_of` returns to the starting offset.
pub proof fn lemma_dst_of_src_of(p: int, r: int, c: int)
    requires
        0 < r,
        0 < c,
        0 <= p < r * c,
    ensures
        dst_of(src_of(p, r, c), r, c) == p,
{
    let q = p / c;
    let s = p % c;
    lemma_mod_division_less_than_divisor(p, c);
    lemma_div_pos_is_pos(p, c);
    lemma_fundamental_div_mod(p, c);
    assert(q < r) by (nonlinear_arith)
        requires
            0 < c,
            p < r * c,
            p == c * q + s,
            0 <= s,
    ;
    // src_of(p) == s * r + q, and dividing by r recovers (s, q).
    lemma_mul_is_commutative(s, r);
    lemma_fundamental_div_mod_converse(s * r + q, r, s, q);
    lemma_mul_is_commutative(q, c);
}

/// Distinct offsets have distinct sources: `src_of` is injective.
pub proof fn lemma_src_injective(p1: int, p2: int, r: int, c: int)
    requires
        0 < r,
        0 < c,
        0 <= p1 < r * c,
        0 <= p2 < r * c,
        src_of(p1, r, c) == src_of(p2, r, c),
    ensures
        p1 == p2,
{
    lemma_dst_of_src_of(p1, r, c);
    lemma_dst_of_src_of(p2, r, c);
}

/// `k` applications of `src_of` starting from `p`: the walk along `p`'s
/// permutation cycle.
pub open spec fn walk(k: nat, p: int, r: int, c: int) -> int
    decreases k,
{
    if k == 0 {
        p
    } else {
        src_of(walk((k - 1) as nat, p, r, c), r, c)
    }
}

/// The walk never leaves the buffer.
pub proof fn lemma_walk_in_range(k: nat, p: int, r: int, c: int)
    requires
        0 < r,
        0 < c,
        0 <= p < r * c,
    ensures
        0 <= walk(k, p, r, c) < r * c,
    decreases k,
{
    if k > 0 {
        lemma_walk_in_range((k - 1) as nat, p, r, c);
        lemma_src_in_range(walk((k - 1) as nat, p, r, c), r, c);
    }
}

/// Walking `a + b` steps is walking `b` steps, then `a` more.
pub proof fn lemma_walk_add(a: nat, b: nat, p: int, r: int, c: int)
    ensures
        walk(a + b, p, r, c) == walk(a, walk(b, p, r, c), r, c),
    decreases a,
{
    if a > 0 {
        lemma_walk_add((a - 1) as nat, b, p, r, c);
    }
}

/// A walk can only arrive at a fixed point of `src_of` if it started there.
pub proof fn lemma_walk_to_fixed(k: nat, p: int, f: int, r: int, c: int)
    requires
        0 < r,
        0 < c,
        0 <= p < r * c,
        0 <= f < r * c,
        src_of(f, r, c) == f,
        walk(k, p, r, c) == f,
    ensures
        p == f,
    decreases k,
{
    if k > 0 {
        lemma_src_in_range(p, r, c);
        lemma_walk_add((k - 1) as nat, 1, p, r, c);
        assert(walk(0, p, r, c) == p);
        assert(walk(1, p, r, c) == src_of(p, r, c));
        lemma_walk_to_fixed((k - 1) as nat, src_of(p, r, c), f, r, c);
        lemma_src_injective(p, f, r, c);
    }
}

/// Some start offset below `s` lies on `p`'s cycle, so the outer sweep up to
/// `s` has already walked that cycle.
pub open spec fn touched(p: int, s: int, r: int, c: int) -> bool {
    exists|k: nat| walk(k, p, r, c) < s
}

/// A cycle that has been walked completely — `path` lists the offsets
/// `walk(0, s), ..., walk(len - 1, s)`, `last` is `walk(len, s)`, and the
/// next step returns to `s` — contains every offset whose walk reaches `s`.
proof fn lemma_cycle_complete(
    path: Seq<int>,
    last: int,
    s: int,
    p: int,
    k: nat,
    r: int,
    c: int,
)
    requires
        0 < r,
        0 < c,
        0 <= s < r * c,
        0 <= p < r * c,
        0 <= last < r * c,
        path.len() > 0,
        forall|idx: int| 0 <= idx < path.len() ==> #[trigger] path[idx] == walk(idx as nat, s, r, c),
        forall|idx: int| 0 <= idx < path.len() ==> 0 <= #[trigger] path[idx] < r * c,
        last == walk(path.len() as nat, s, r, c),
        src_of(last, r, c) == s,
        walk(k, p, r, c) == s,
    ensures
        path.contains(p) || p == last,
    decreases k,
{
    if k == 0 {
        assert(path[0] == walk(0, s, r, c));
        assert(path.contains(p)) by {
            assert(path[0] == p);
        }
    } else {
        let q = src_of(p, r, c);
        lemma_src_in_range(p, r, c);
        lemma_walk_add((k - 1) as nat, 1, p, r, c);
        assert(walk(0, p, r, c) == p);
        assert(walk(1, p, r, c) == q);
        lemma_cycle_complete(path, last, s, q, (k - 1) as nat, r, c);
        if q == last {
            // src_of(p) == walk(len, s) == src_of(path[len - 1]).
            let len = path.len() as int;
            assert(walk(len as nat, s, r, c) == src_of(walk((len - 1) as nat, s, r, c), r, c));
            lemma_walk_in_range((len - 1) as nat, s, r, c);
            lemma_src_injective(p, path[len - 1], r, c);
            assert(path.contains(p)) by {
                assert(path[len - 1] == p);
            }
        } else {
            let idx = choose|idx: int| 0 <= idx < path.len() && path[idx] == q;
            if idx == 0 {
                // src_of(p) == s == src_of(last).
                lemma_src_injective(p, last, r, c);
            } else {
                assert(walk(idx as nat, s, r, c) == src_of(
                    walk((idx - 1) as nat, s, r, c),
                    r,
                    c,
                ));
                lemma_walk_in_range((idx - 1) as nat, s, r, c);
                lemma_src_injective(p, path[idx - 1], r, c);
                assert(path.contains(p)) by {
                    assert(path[idx - 1] == p);
                }
            }
        }
    }
}

/// Pairwise-distinct offsets inside a buffer of size `n`, plus one more not
/// among them, number at most `n`.
proof fn lemma_distinct_capacity(path: Seq<int>, extra: int, n: int)
    requires
        forall|idx: int| 0 <= idx < path.len() ==> 0 <= #[trigger] path[idx] < n,
        forall|i1: int, i2: int| 0 <= i1 < i2 < path.len() ==> path[i1] != path[i2],
        0 <= extra < n,
        !path.contains(extra),
    ensures
        path.len() < n,
{
    let full = path.push(extra);
    assert(full.no_duplicates()) by {
        assert forall|i1: int, i2: int|
            0 <= i1 < full.len() && 0 <= i2 < full.len() && i1 != i2 implies full[i1]
            != full[i2] by {
            if i1 < i2 < full.len() - 1 || i2 < i1 < full.len() - 1 {
            } else if i1 == full.len() - 1 && i2 < i1 {
                assert(path[i2] == full[i2]);
                assert(!path.contains(extra));
                if full[i1] == full[i2] {
                    assert(path[i2] == extra);
                }
            } else if i2 == full.len() - 1 && i1 < i2 {
                assert(path[i1] == full[i1]);
                if full[i1] == full[i2] {
                    assert(path[i1] == extra);
                }
            }
        }
    }
    full.unique_seq_to_set();
    lemma_int_range(0, n);
    assert(full.to_set().subset_of(set_int_range(0, n))) by {
        assert forall|x: int| full.to_set().contains(x) implies set_int_range(0, n).contains(
            x,
        ) by {
            assert(full.contains(x));
            let i = choose|i: int| 0 <= i < full.len() && full[i] == x;
            if i < full.len() - 1 {
                assert(path[i] == x);
            }
        }
    }
    lemma_len_subset(full.to_set(), set_int_range(0, n));
}

/// Relies on `<[T]>::swap` (reached through `Vec`'s mutable deref): exchanges
/// the elements at offsets `a` and `b`, leaving all others in place.
#[verifier::external_body]
pub(crate) fn swap_in_vec<T>(data: &mut Vec<T>, a: usize, b: usize)
    requires
        a < old(data)@.len(),
        b < old(data)@.len(),
    ensures
        final(data)@ == old(data)@.update(a as int, old(data)@[b as int]).update(
            b as int,
            old(data)@[a as int],
        ),
{
    data.swap(a, b);
}

/// Computes `src_of` on machine integers.
fn src_index(p: usize, rows: usize, columns: usize) -> (q: usize)
    requires
        0 < rows,
        0 < columns,
        p < rows * columns,
        rows * columns <= usize::MAX,
    ensures
        q == src_of(p as int, rows as int, columns as int),
        q < rows * columns,
{
    proof {
        lemma_src_in_range(p as int, rows as int, columns as int);
    }
    (p % columns) * rows + p / columns
}


/// `touched` only grows as the sweep advances.
proof fn lemma_touched_monotone(p: int, s1: int, s2: int, r: int, c: int)
    requires
        touched(p, s1, r, c),
        s1 <= s2,
    ensures
        touched(p, s2, r, c),
{
    let k = choose|k: nat| walk(k, p, r, c) < s1;
    assert(walk(k, p, r, c) < s2);
}

/// Every step of the walk stays inside the buffer.
proof fn lemma_walk_all_in_range(p: int, r: int, c: int)
    requires
        0 < r,
        0 < c,
        0 <= p < r * c,
    ensures
        forall|k: nat| 0 <= #[trigger] walk(k, p, r, c) < r * c,
{
    assert forall|k: nat| 0 <= #[trigger] walk(k, p, r, c) < r * c by {
        lemma_walk_in_range(k, p, r, c);
    }
}

/// Permutes a flat row-major buffer in place so that, read under a new
/// `rows x columns` shape, it holds the transpose of the `columns x rows`
/// matrix it held before: offset `p` receives the value that sat at offset
/// `src_of(p, rows, columns)`. Each permutation cycle is walked exactly once,
/// entered at its smallest offset; a bitmap records the offsets already
/// served so no cycle is entered twice.
pub fn permute_to_transpose<T>(data: &mut Vec<T>, rows: usize, columns: usize)
    requires
        1 < rows,
        1 < columns,
        old(data)@.len() == rows * columns,
    ensures
        final(data)@.len() == rows * columns,
        forall|p: int|
            0 <= p < rows * columns ==> final(data)@[p] == old(data)@[src_of(
                p,
                rows as int,
                columns as int,
            )],
{
    let ghost r = rows as int;
    let ghost c = columns as int;
    let ghost n = r * c;
    let ghost orig = data@;
    let count = data.len();
    let mut marks = BitMap::new(count);
    let mut start: usize = 0;
    proof {
        assert forall|p: int| 0 <= p < n implies !touched(p, 0, r, c) by {
            lemma_walk_all_in_range(p, r, c);
        }
    }
    while start < count
        invariant
            1 < r,
            1 < c,
            n == r * c,
            r == rows as int,
            c == columns as int,
            count == n,
            data@.len() == n,
            orig.len() == n,
            orig == old(data)@,
            n <= marks.capacity(),
            start <= count,
            forall|p: int|
                0 <= p < n && #[trigger] touched(p, start as int, r, c) ==> data@[p] == orig[src_of(
                    p,
                    r,
                    c,
                )],
            forall|p: int|
                0 <= p < n && #[trigger] touched(p, start as int, r, c) && !marks.bit(p) ==> (src_of(
                    p,
                    r,
                    c,
                ) < start || src_of(p, r, c) == p),
            forall|p: int|
                0 <= p < n && !(#[trigger] touched(p, start as int, r, c)) ==> data@[p] == orig[p]
                    && !marks.bit(p),
        decreases count - start,
    {
        let original_this = start;
        let mut this = original_this;
        let mut other = src_index(this, rows, columns);
        let ghost s = start as int;
        let ghost mut path: Seq<int> = Seq::empty();
        while original_this < other && !marks.get(this)
            invariant
                1 < r,
                1 < c,
                n == r * c,
                r == rows as int,
                c == columns as int,
                count == n,
                data@.len() == n,
                orig.len() == n,
                orig == old(data)@,
                n <= marks.capacity(),
                s == original_this as int,
                0 <= s < n,
                this as int == walk(path.len() as nat, s, r, c),
                this < count,
                other as int == src_of(this as int, r, c),
                other < count,
                path.len() <= n,
                forall|idx: int|
                    0 <= idx < path.len() ==> #[trigger] path[idx] == walk(idx as nat, s, r, c),
                forall|idx: int| 0 <= idx < path.len() ==> 0 <= #[trigger] path[idx] < n,
                forall|i1: int, i2: int| 0 <= i1 < i2 < path.len() ==> path[i1] != path[i2],
                !path.contains(this as int),
                forall|idx: int|
                    0 <= idx < path.len() ==> data@[#[trigger] path[idx]] == orig[src_of(
                        path[idx],
                        r,
                        c,
                    )] && marks.bit(path[idx]),
                path.len() > 0 ==> !touched(s, s, r, c) && data@[this as int] == orig[s],
                path.len() == 0 ==> this as int == s && (touched(s, s, r, c) ==> data@[s]
                    == orig[src_of(s, r, c)]) && (!touched(s, s, r, c) ==> data@[s] == orig[s]),
                forall|p: int|
                    0 <= p < n && !path.contains(p) ==> ((!(#[trigger] touched(p, s, r, c))
                        ==> !marks.bit(p)) && (touched(p, s, r, c) && !marks.bit(p) ==> (src_of(
                        p,
                        r,
                        c,
                    ) < s || src_of(p, r, c) == p))),
                forall|p: int|
                    0 <= p < n && !path.contains(p) && p != this as int ==> ((!(#[trigger] touched(
                        p,
                        s,
                        r,
                        c,
                    )) ==> data@[p] == orig[p]) && (touched(p, s, r, c) ==> data@[p] == orig[src_of(
                        p,
                        r,
                        c,
                    )])),
            decreases n - path.len(),
        {
            proof {
                let len = path.len();
                if touched(s, s, r, c) && len == 0 {
                    // At an already-walked start the invariant forces the guard
                    // off: the bit is clear only if the source lies at or below s.
                    assert(!path.contains(s));
                    assert(false);
                }
                assert(!touched(s, s, r, c));
                assert(walk(len + 1, s, r, c) == src_of(walk(len, s, r, c), r, c));
                assert(!touched(other as int, s, r, c)) by {
                    if touched(other as int, s, r, c) {
                        let k = choose|k: nat| walk(k, other as int, r, c) < s;
                        lemma_walk_add(k, len + 1, s, r, c);
                        assert(walk(k + len + 1, s, r, c) < s);
                        assert(false);
                    }
                }
                assert(other as int != this as int) by {
                    if other as int == this as int && len > 0 {
                        assert(this as int == src_of(walk((len - 1) as nat, s, r, c), r, c));
                        lemma_walk_in_range((len - 1) as nat, s, r, c);
                        lemma_walk_in_range(len, s, r, c);
                        lemma_src_injective(this as int, walk((len - 1) as nat, s, r, c), r, c);
                        assert(path[len - 1] == this as int);
                        assert(path.contains(this as int));
                        assert(false);
                    }
                }
                assert(!path.contains(other as int)) by {
                    if path.contains(other as int) {
                        let idx = choose|idx: int|
                            0 <= idx < path.len() && path[idx] == other as int;
                        if idx == 0 {
                            // path[0] == s, against the guard s < other.
                            assert(path[0] == walk(0, s, r, c));
                            assert(false);
                        } else {
                            assert(path[idx] == src_of(walk((idx - 1) as nat, s, r, c), r, c));
                            lemma_walk_in_range((idx - 1) as nat, s, r, c);
                            lemma_walk_in_range(len, s, r, c);
                            lemma_src_injective(
                                this as int,
                                walk((idx - 1) as nat, s, r, c),
                                r,
                                c,
                            );
                            assert(path[idx - 1] == this as int);
                            assert(path.contains(this as int));
                            assert(false);
                        }
                    }
                }
                // `other` is untouched, unvisited, and so still virgin.
                assert(data@[other as int] == orig[other as int]);
                lemma_distinct_capacity(path, this as int, n);
            }
            let ghost prev_path = path;
            let ghost prev_this = this as int;
            let ghost prev_other = other as int;
            let ghost pre_swap = data@;
            swap_in_vec(data, this, other);
            marks.set(this);
            proof {
                path = path.push(prev_this);
            }
            this = other;
            other = src_index(this, rows, columns);
            proof {
                let len = path.len();
                assert(path[len - 1] == prev_this);
                assert(forall|idx: int| 0 <= idx < len - 1 ==> path[idx] == prev_path[idx]);
                assert(forall|idx: int|
                    0 <= idx < len - 1 ==> #[trigger] prev_path[idx] != prev_this
                        && prev_path[idx] != prev_other);
                assert(this as int == walk(len as nat, s, r, c));
                assert(!path.contains(this as int)) by {
                    if path.contains(this as int) {
                        let idx = choose|idx: int| 0 <= idx < len && path[idx] == prev_other;
                        assert(idx < len - 1);
                        assert(prev_path.contains(prev_other)) by {
                            assert(prev_path[idx] == prev_other);
                        }
                    }
                }
                assert(data@[prev_this] == pre_swap[prev_other]);
                assert(data@[this as int] == pre_swap[prev_this]);
                assert(data@[this as int] == orig[s]);
                assert forall|idx: int| 0 <= idx < len implies data@[#[trigger] path[idx]]
                    == orig[src_of(path[idx], r, c)] && marks.bit(path[idx]) by {
                    if idx == len - 1 {
                        assert(data@[prev_this] == orig[prev_other]);
                    } else {
                        assert(path[idx] == prev_path[idx]);
                        assert(data@[path[idx]] == pre_swap[path[idx]]);
                    }
                }
                assert forall|p: int| 0 <= p < n && !path.contains(p) implies ((!(
                #[trigger] touched(p, s, r, c)) ==> !marks.bit(p)) && (touched(p, s, r, c)
                    && !marks.bit(p) ==> (src_of(p, r, c) < s || src_of(p, r, c) == p))) by {
                    assert(p != prev_this) by {
                        if p == prev_this {
                            assert(path[len - 1] == p);
                            assert(path.contains(p));
                        }
                    }
                    assert(!prev_path.contains(p)) by {
                        if prev_path.contains(p) {
                            let idx = choose|idx: int|
                                0 <= idx < prev_path.len() && prev_path[idx] == p;
                            assert(path[idx] == p);
                            assert(path.contains(p));
                        }
                    }
                }
                assert forall|p: int|
                    0 <= p < n && !path.contains(p) && p != this as int implies ((!(
                #[trigger] touched(p, s, r, c)) ==> data@[p] == orig[p]) && (touched(p, s, r, c)
                    ==> data@[p] == orig[src_of(p, r, c)])) by {
                    assert(p != prev_this) by {
                        if p == prev_this {
                            assert(path[len - 1] == p);
                            assert(path.contains(p));
                        }
                    }
                    assert(!prev_path.contains(p)) by {
                        if prev_path.contains(p) {
                            let idx = choose|idx: int|
                                0 <= idx < prev_path.len() && prev_path[idx] == p;
                            assert(path[idx] == p);
                            assert(path.contains(p));
                        }
                    }
                    assert(p != prev_other);
                    assert(data@[p] == pre_swap[p]);
                }
            }
        }
        start = start + 1;
        proof {
            let s_new = start as int;
            let len = path.len();
            if len == 0 {
                if !touched(s, s, r, c) {
                    // The guard failed on an untouched start with a clear bit, so
                    // `src_of(s) <= s`; anything smaller would make `s` touched.
                    // Hence `s` is a fixed point and already holds its value.
                    assert(!path.contains(s));
                    assert(!marks.bit(s));
                    assert(walk(0, s, r, c) == s);
                    assert(walk(1, s, r, c) == src_of(s, r, c));
                    if src_of(s, r, c) < s {
                        assert(false);
                    }
                    assert(src_of(s, r, c) == s);
                    assert forall|p: int|
                        0 <= p < n && #[trigger] touched(p, s_new, r, c) && !touched(
                            p,
                            s,
                            r,
                            c,
                        ) implies p == s by {
                        let k = choose|k: nat| walk(k, p, r, c) < s_new;
                        assert(walk(k, p, r, c) == s);
                        lemma_walk_to_fixed(k, p, s, r, c);
                    }
                    assert forall|p: int|
                        0 <= p < n && #[trigger] touched(p, s_new, r, c) implies data@[p]
                        == orig[src_of(p, r, c)] && (!marks.bit(p) ==> (src_of(p, r, c) < s_new
                        || src_of(p, r, c) == p)) by {
                        if touched(p, s, r, c) {
                            assert(p != s);
                        } else {
                            assert(p == s);
                        }
                    }
                    assert forall|p: int|
                        0 <= p < n && !(#[trigger] touched(p, s_new, r, c)) implies data@[p]
                        == orig[p] && !marks.bit(p) by {
                        if touched(p, s, r, c) {
                            lemma_touched_monotone(p, s, s_new, r, c);
                        }
                        if p == s {
                            assert(walk(0, p, r, c) == p);
                            assert(touched(p, s_new, r, c));
                        }
                    }
                } else {
                    // An already-walked cycle: nothing new becomes touched and
                    // nothing moved.
                    assert forall|p: int|
                        0 <= p < n && #[trigger] touched(p, s_new, r, c) implies touched(
                        p,
                        s,
                        r,
                        c,
                    ) by {
                        let k = choose|k: nat| walk(k, p, r, c) < s_new;
                        if !(walk(k, p, r, c) < s) {
                            assert(walk(k, p, r, c) == s);
                            let j = choose|j: nat| walk(j, s, r, c) < s;
                            lemma_walk_add(j, k, p, r, c);
                            assert(walk(j + k, p, r, c) < s);
                        }
                    }
                    assert forall|p: int|
                        0 <= p < n && #[trigger] touched(p, s_new, r, c) implies data@[p]
                        == orig[src_of(p, r, c)] && (!marks.bit(p) ==> (src_of(p, r, c) < s_new
                        || src_of(p, r, c) == p)) by {
                        if p == s {
                            assert(data@[s] == orig[src_of(s, r, c)]);
                        }
                    }
                    assert forall|p: int|
                        0 <= p < n && !(#[trigger] touched(p, s_new, r, c)) implies data@[p]
                        == orig[p] && !marks.bit(p) by {
                        if touched(p, s, r, c) {
                            lemma_touched_monotone(p, s, s_new, r, c);
                        }
                        if p == s {
                            lemma_touched_monotone(p, s, s_new, r, c);
                        }
                    }
                }
            } else {
                // A full cycle was walked: it closed at `s`, every offset on it
                // holds its final value, and nothing off the cycle moved.
                let t = this as int;
                assert(t == walk(len as nat, s, r, c));
                assert(!touched(s, s, r, c));
                assert(!touched(t, s, r, c)) by {
                    if touched(t, s, r, c) {
                        let k = choose|k: nat| walk(k, t, r, c) < s;
                        lemma_walk_add(k, len as nat, s, r, c);
                        assert(walk(k + len, s, r, c) < s);
                        assert(false);
                    }
                }
                assert(!path.contains(t));
                assert(!marks.bit(t));
                assert(walk(len + 1, s, r, c) == src_of(walk(len as nat, s, r, c), r, c));
                assert(other as int == walk(len + 1, s, r, c));
                if (other as int) < s {
                    assert(false);
                }
                assert(other as int == s);
                assert(src_of(t, r, c) == s);
                assert(data@[t] == orig[s]);
                // Every offset on the walked cycle is now touched.
                assert forall|p: int| path.contains(p) || p == t implies #[trigger] touched(
                    p,
                    s_new,
                    r,
                    c,
                ) by {
                    let i: int = if p == t {
                        len as int
                    } else {
                        choose|i: int| 0 <= i < path.len() && path[i] == p
                    };
                    assert(p == walk(i as nat, s, r, c));
                    lemma_walk_add((len + 1 - i) as nat, i as nat, s, r, c);
                    assert(walk((len + 1 - i) as nat, p, r, c) == walk(len + 1, s, r, c));
                    assert(walk((len + 1 - i) as nat, p, r, c) < s_new);
                }
                // Conversely, whatever becomes touched now lies on the cycle.
                assert forall|p: int|
                    0 <= p < n && #[trigger] touched(p, s_new, r, c) && !touched(
                        p,
                        s,
                        r,
                        c,
                    ) implies path.contains(p) || p == t by {
                    let k = choose|k: nat| walk(k, p, r, c) < s_new;
                    assert(walk(k, p, r, c) == s);
                    lemma_cycle_complete(path, t, s, p, k, r, c);
                }
                assert forall|p: int|
                    0 <= p < n && #[trigger] touched(p, s_new, r, c) implies data@[p] == orig[src_of(
                    p,
                    r,
                    c,
                )] && (!marks.bit(p) ==> (src_of(p, r, c) < s_new || src_of(p, r, c) == p)) by {
                    if path.contains(p) {
                        let idx = choose|idx: int| 0 <= idx < path.len() && path[idx] == p;
                        assert(data@[path[idx]] == orig[src_of(path[idx], r, c)]);
                        assert(marks.bit(p));
                    } else if p == t {
                        assert(data@[t] == orig[src_of(t, r, c)]);
                    } else {
                        assert(touched(p, s, r, c));
                    }
                }
                assert forall|p: int|
                    0 <= p < n && !(#[trigger] touched(p, s_new, r, c)) implies data@[p] == orig[p]
                    && !marks.bit(p) by {
                    if touched(p, s, r, c) {
                        lemma_touched_monotone(p, s, s_new, r, c);
                    }
                    assert(!path.contains(p) && p != t);
                }
            }
        }
    }
    proof {
        assert forall|p: int| 0 <= p < n implies data@[p] == orig[src_of(p, r, c)] by {
            assert(walk(0, p, r, c) == p);
            assert(touched(p, count as int, r, c));
        }
    }
}

} // verus!
