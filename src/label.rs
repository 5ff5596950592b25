//! The order on labels, and a stable sort of vertex indices by label.
//!
//! Labels are ordered as Rust orders strings: lexicographically by their
//! UTF-8 bytes.

use vstd::prelude::*;
use vstd::utf8::encode_utf8;

verus! {

/// Strict lexicographic order on byte sequences; a proper prefix comes first.
pub open spec fn bytes_lt(a: Seq<u8>, b: Seq<u8>) -> bool
    decreases a.len(),
{
    if a.len() == 0 {
        b.len() > 0
    } else if b.len() == 0 {
        false
    } else if a[0] != b[0] {
        a[0] < b[0]
    } else {
        bytes_lt(a.drop_first(), b.drop_first())
    }
}

/// `a` sorts strictly before `b`.
pub open spec fn label_lt(a: Seq<char>, b: Seq<char>) -> bool {
    bytes_lt(encode_utf8(a), encode_utf8(b))
}

/// Inserts `x` into `t` after the last entry whose label does not sort after
/// the label of `x`.
pub open spec fn insert_by_label(labels: Seq<Seq<char>>, t: Seq<usize>, x: usize) -> Seq<usize>
    decreases t.len(),
{
    if t.len() == 0 {
        seq![x]
    } else if label_lt(labels[x as int], labels[t.last() as int]) {
        insert_by_label(labels, t.drop_last(), x).push(t.last())
    } else {
        t.push(x)
    }
}

/// `s` sorted by label, entries with equal labels kept in their order in `s`.
pub open spec fn sort_by_label(labels: Seq<Seq<char>>, s: Seq<usize>) -> Seq<usize>
    decreases s.len(),
{
    if s.len() == 0 {
        s
    } else {
        insert_by_label(labels, sort_by_label(labels, s.drop_last()), s.last())
    }
}

/// Every entry of `s` indexes `labels`.
pub open spec fn indexes_into(s: Seq<usize>, n: nat) -> bool {
    forall|k: int| 0 <= k < s.len() ==> #[trigger] s[k] < n
}

/// Whether `a` sorts strictly before `b`.
pub fn label_less(a: &String, b: &String) -> (r: bool)
    ensures
        r == label_lt(a@, b@),
{
    let x = a.as_str().as_bytes();
    let y = b.as_str().as_bytes();
    let ghost xs = encode_utf8(a@);
    let ghost ys = encode_utf8(b@);
    assert(x@ == xs);
    assert(y@ == ys);
    let mut i: usize = 0;
    assert(xs.skip(0) =~= xs);
    assert(ys.skip(0) =~= ys);
    while i < x.len() && i < y.len()
        invariant
            xs == encode_utf8(a@),
            ys == encode_utf8(b@),
            x@ == xs,
            y@ == ys,
            i <= xs.len(),
            i <= ys.len(),
            bytes_lt(xs, ys) == bytes_lt(xs.skip(i as int), ys.skip(i as int)),
        decreases xs.len() - i,
    {
        let xi = x[i];
        let yi = y[i];
        if xi != yi {
            assert(xs.skip(i as int).len() > 0);
            assert(ys.skip(i as int).len() > 0);
            assert(xs.skip(i as int)[0] == x[i as int]);
            assert(ys.skip(i as int)[0] == y[i as int]);
            assert(bytes_lt(xs.skip(i as int), ys.skip(i as int)) == (xi < yi));
            return xi < yi;
        }
        assert(xs.skip(i as int).drop_first() =~= xs.skip(i + 1));
        assert(ys.skip(i as int).drop_first() =~= ys.skip(i + 1));
        i = i + 1;
    }
    assert(xs.skip(i as int).len() == xs.len() - i);
    assert(ys.skip(i as int).len() == ys.len() - i);
    i == x.len() && i < y.len()
}

/// Moves `x` into the sorted vector `r` as `insert_by_label` does.
#[verifier::rlimit(40)]
fn insert_sorted(labels: &Vec<String>, r: &mut Vec<usize>, x: usize)
    requires
        x < labels@.len(),
        indexes_into(old(r)@, labels@.len()),
        old(r)@.len() < usize::MAX,
    ensures
        final(r)@ == insert_by_label(labels@.map_values(|s: String| s@), old(r)@, x),
{
    let ghost lv = labels@.map_values(|s: String| s@);
    let ghost t = r@;
    let ghost n = t.len() as int;
    r.push(x);
    let mut j: usize = r.len() - 1;
    assert(t.subrange(0, n) =~= t);
    assert(t.subrange(n, n) =~= Seq::<usize>::empty());
    assert(r@.subrange(0, n) =~= t);
    let mut go: bool = j > 0 && label_less(&labels[x], &labels[r[j - 1]]);
    while go
        invariant
            lv == labels@.map_values(|s: String| s@),
            x < labels@.len(),
            indexes_into(t, labels@.len()),
            n == t.len(),
            r@.len() == n + 1,
            j <= n,
            r@[j as int] == x,
            r@.subrange(0, j as int) == t.subrange(0, j as int),
            r@.subrange(j + 1, n + 1) == t.subrange(j as int, n),
            insert_by_label(lv, t, x) == insert_by_label(lv, t.subrange(0, j as int), x) + t.subrange(
                j as int,
                n,
            ),
            go ==> j > 0 && label_lt(lv[x as int], lv[r@[j - 1] as int]),
            !go ==> j == 0 || !label_lt(lv[x as int], lv[r@[j - 1] as int]),
        decreases j,
    {
        proof {
            assert(r@.subrange(0, j as int)[j - 1] == r@[j - 1]);
            lemma_insert_step(lv, t, x, j as int);
        }
        let ghost pre = t.subrange(0, j as int);
        let ghost r_old = r@;
        let y = r[j - 1];
        r[j] = y;
        r[j - 1] = x;
        j = j - 1;
        assert(r@.subrange(0, j as int) =~= t.subrange(0, j as int)) by {
            assert forall|k: int| 0 <= k < j implies r@[k] == t[k] by {
                assert(pre[k] == t[k]);
            }
        }
        assert(r@.subrange(j + 1, n + 1) =~= t.subrange(j as int, n)) by {
            assert forall|k: int| j + 1 < k <= n implies r@[k] == t[k - 1] by {
                assert(r_old.subrange(j + 2, n + 1)[k - j - 2] == r_old[k]);
            }
        }
        go = j > 0 && label_less(&labels[x], &labels[r[j - 1]]);
    }
    let ghost pre = t.subrange(0, j as int);
    if j == 0 {
        assert(r@ =~= insert_by_label(lv, pre, x) + t.subrange(j as int, n));
    } else {
        assert(r@[j - 1] == pre.last()) by {
            assert(r@.subrange(0, j as int)[j - 1] == r@[j - 1]);
        }
        assert(insert_by_label(lv, pre, x) == pre.push(x));
        assert(r@ =~= insert_by_label(lv, pre, x) + t.subrange(j as int, n)) by {
            assert forall|k: int| 0 <= k < j implies r@[k] == pre[k] by {
                assert(r@.subrange(0, j as int)[k] == r@[k]);
            }
            assert forall|k: int| j < k <= n implies r@[k] == t[k - 1] by {
                assert(r@.subrange(j + 1, n + 1)[k - j - 1] == r@[k]);
            }
        }
    }
    assert(t.subrange(0, n) =~= t);
}

/// One step of the insertion: `x` moves before `t[j - 1]`.
proof fn lemma_insert_step(labels: Seq<Seq<char>>, t: Seq<usize>, x: usize, j: int)
    requires
        0 < j <= t.len(),
        label_lt(labels[x as int], labels[t[j - 1] as int]),
        insert_by_label(labels, t, x) == insert_by_label(labels, t.subrange(0, j), x) + t.subrange(
            j,
            t.len() as int,
        ),
    ensures
        insert_by_label(labels, t, x) == insert_by_label(labels, t.subrange(0, j - 1), x)
            + t.subrange(j - 1, t.len() as int),
{
    let pre = t.subrange(0, j);
    assert(pre.drop_last() =~= t.subrange(0, j - 1));
    assert(t.subrange(j - 1, t.len() as int) =~= seq![pre.last()] + t.subrange(j, t.len() as int));
    assert(insert_by_label(labels, t, x) =~= insert_by_label(labels, t.subrange(0, j - 1), x)
        + t.subrange(j - 1, t.len() as int));
}

/// `s` sorted by label, entries with equal labels kept in their order in `s`.
pub fn sort_indices_by_label(labels: &Vec<String>, s: &Vec<usize>) -> (r: Vec<usize>)
    requires
        indexes_into(s@, labels@.len()),
    ensures
        r@ == sort_by_label(labels@.map_values(|s: String| s@), s@),
{
    let ghost lv = labels@.map_values(|s: String| s@);
    let mut r: Vec<usize> = Vec::new();
    let mut k: usize = 0;
    while k < s.len()
        invariant
            lv == labels@.map_values(|s: String| s@),
            indexes_into(s@, labels@.len()),
            k <= s@.len(),
            r@ == sort_by_label(lv, s@.subrange(0, k as int)),
            r@.len() == k,
            indexes_into(r@, labels@.len()),
        decreases s@.len() - k,
    {
        assert(s@.subrange(0, k + 1).drop_last() =~= s@.subrange(0, k as int));
        insert_sorted(labels, &mut r, s[k]);
        proof {
            lemma_insert_keeps(lv, sort_by_label(lv, s@.subrange(0, k as int)), s@[k as int], labels@.len());
        }
        k = k + 1;
    }
    assert(s@.subrange(0, k as int) =~= s@);
    r
}

/// Inserting keeps the length and the set of entries.
proof fn lemma_insert_keeps(labels: Seq<Seq<char>>, t: Seq<usize>, x: usize, n: nat)
    requires
        indexes_into(t, n),
        x < n,
    ensures
        insert_by_label(labels, t, x).len() == t.len() + 1,
        indexes_into(insert_by_label(labels, t, x), n),
        insert_by_label(labels, t, x).to_multiset() == t.to_multiset().insert(x),
    decreases t.len(),
{
    broadcast use vstd::seq_lib::group_to_multiset_ensures;

    if t.len() > 0 && label_lt(labels[x as int], labels[t.last() as int]) {
        let u = t.drop_last();
        lemma_insert_keeps(labels, u, x, n);
        assert(t =~= u.push(t.last()));
        let w = insert_by_label(labels, u, x);
        assert(w.push(t.last()).to_multiset() == w.to_multiset().insert(t.last()));
        assert(t.to_multiset() == u.to_multiset().insert(t.last()));
        assert(w.push(t.last()).to_multiset() =~= t.to_multiset().insert(x));
    } else if t.len() == 0 {
        assert(seq![x] =~= Seq::<usize>::empty().push(x));
    }
}

/// Sorting keeps the length and the entries, each as often as it occurs.
pub proof fn lemma_sort_keeps(labels: Seq<Seq<char>>, s: Seq<usize>, n: nat)
    requires
        indexes_into(s, n),
    ensures
        sort_by_label(labels, s).len() == s.len(),
        indexes_into(sort_by_label(labels, s), n),
        sort_by_label(labels, s).to_multiset() == s.to_multiset(),
    decreases s.len(),
{
    broadcast use vstd::seq_lib::group_to_multiset_ensures;

    if s.len() > 0 {
        let u = s.drop_last();
        lemma_sort_keeps(labels, u, n);
        lemma_insert_keeps(labels, sort_by_label(labels, u), s.last(), n);
        assert(s =~= u.push(s.last()));
    }
}

/// Sorting keeps which entries occur, and a sequence without repeats stays so.
pub proof fn lemma_sort_same_entries(labels: Seq<Seq<char>>, s: Seq<usize>, n: nat)
    requires
        indexes_into(s, n),
    ensures
        sort_by_label(labels, s).len() == s.len(),
        indexes_into(sort_by_label(labels, s), n),
        forall|x: usize| #[trigger] sort_by_label(labels, s).contains(x) <==> s.contains(x),
        s.no_duplicates() ==> sort_by_label(labels, s).no_duplicates(),
{
    broadcast use vstd::seq_lib::group_to_multiset_ensures;

    lemma_sort_keeps(labels, s, n);
    let r = sort_by_label(labels, s);
    assert forall|x: usize| #[trigger] r.contains(x) <==> s.contains(x) by {
        assert(r.to_multiset().count(x) == s.to_multiset().count(x));
    }
    if s.no_duplicates() {
        s.lemma_multiset_has_no_duplicates();
        r.lemma_multiset_has_no_duplicates_conv();
    }
}

/// The byte order is asymmetric, hence irreflexive.
pub proof fn lemma_bytes_lt_asym(a: Seq<u8>, b: Seq<u8>)
    ensures
        bytes_lt(a, b) ==> !bytes_lt(b, a),
    decreases a.len(),
{
    if a.len() > 0 && b.len() > 0 && a[0] == b[0] {
        lemma_bytes_lt_asym(a.drop_first(), b.drop_first());
    }
}

/// The byte order is negatively transitive: if `a` comes before `c`, then
/// any `b` comes after `a` or before `c`.
pub proof fn lemma_bytes_lt_split(a: Seq<u8>, b: Seq<u8>, c: Seq<u8>)
    ensures
        bytes_lt(a, c) ==> bytes_lt(a, b) || bytes_lt(b, c),
    decreases a.len(),
{
    if a.len() > 0 && b.len() > 0 && c.len() > 0 && a[0] == b[0] && b[0] == c[0] {
        lemma_bytes_lt_split(a.drop_first(), b.drop_first(), c.drop_first());
    }
}

/// The labels of `r` never decrease.
pub open spec fn sorted_by_label(labels: Seq<Seq<char>>, r: Seq<usize>) -> bool {
    forall|a: int, b: int|
        0 <= a < b < r.len() ==> !label_lt(labels[#[trigger] r[b] as int], labels[#[trigger] r[a] as int])
}

/// Entries of `r` with equal labels stand in increasing order.
pub open spec fn stable_by_label(labels: Seq<Seq<char>>, r: Seq<usize>) -> bool {
    forall|a: int, b: int|
        0 <= a < b < r.len() && labels[#[trigger] r[a] as int] == labels[#[trigger] r[b] as int] ==> r[a] < r[b]
}

/// The entries of `s` increase strictly.
pub open spec fn increasing(s: Seq<usize>) -> bool {
    forall|a: int, b: int| 0 <= a < b < s.len() ==> #[trigger] s[a] < #[trigger] s[b]
}

/// Inserting an index larger than all others into a sorted, stable sequence
/// keeps it sorted and stable.
proof fn lemma_insert_sorted_stable(labels: Seq<Seq<char>>, t: Seq<usize>, x: usize, n: nat)
    requires
        indexes_into(t, n),
        x < n,
        n <= labels.len(),
        sorted_by_label(labels, t),
        stable_by_label(labels, t),
        forall|k: int| 0 <= k < t.len() ==> #[trigger] t[k] < x,
    ensures
        sorted_by_label(labels, insert_by_label(labels, t, x)),
        stable_by_label(labels, insert_by_label(labels, t, x)),
    decreases t.len(),
{
    broadcast use vstd::seq_lib::group_to_multiset_ensures;

    let r = insert_by_label(labels, t, x);
    if t.len() == 0 {
    } else if label_lt(labels[x as int], labels[t.last() as int]) {
        let u = t.drop_last();
        let last = t.last();
        lemma_insert_sorted_stable(labels, u, x, n);
        lemma_insert_keeps(labels, u, x, n);
        let w = insert_by_label(labels, u, x);
        assert(r == w.push(last));
        assert forall|e: usize| #[trigger] w.contains(e) implies e == x || u.contains(e) by {
            assert(w.to_multiset().count(e) > 0);
            assert(w.to_multiset().count(e) == u.to_multiset().insert(x).count(e));
        }
        assert forall|a: int, b: int|
            0 <= a < b < r.len() implies !label_lt(labels[#[trigger] r[b] as int], labels[#[trigger] r[a] as int]) by {
            if b == r.len() - 1 {
                assert(r[a] == w[a]);
                assert(w.contains(w[a]));
                if w[a] == x {
                    lemma_bytes_lt_asym(
                        vstd::utf8::encode_utf8(labels[x as int]),
                        vstd::utf8::encode_utf8(labels[last as int]),
                    );
                } else {
                    let k = choose|k: int| 0 <= k < u.len() && u[k] == w[a];
                    assert(t[k] == u[k]);
                    assert(t[t.len() - 1] == last);
                }
            } else {
                assert(r[a] == w[a] && r[b] == w[b]);
            }
        }
        assert forall|a: int, b: int|
            0 <= a < b < r.len() && labels[#[trigger] r[a] as int] == labels[#[trigger] r[b] as int] implies r[a] < r[b] by {
            if b == r.len() - 1 {
                assert(r[a] == w[a]);
                assert(w.contains(w[a]));
                if w[a] == x {
                    lemma_bytes_lt_asym(
                        vstd::utf8::encode_utf8(labels[x as int]),
                        vstd::utf8::encode_utf8(labels[last as int]),
                    );
                } else {
                    let k = choose|k: int| 0 <= k < u.len() && u[k] == w[a];
                    assert(t[k] == u[k]);
                    assert(t[t.len() - 1] == last);
                }
            } else {
                assert(r[a] == w[a] && r[b] == w[b]);
            }
        }
    } else {
        let last = t.last();
        assert(r == t.push(x));
        assert forall|a: int, b: int|
            0 <= a < b < r.len() implies !label_lt(labels[#[trigger] r[b] as int], labels[#[trigger] r[a] as int]) by {
            if b == r.len() - 1 {
                assert(r[a] == t[a]);
                if a < t.len() - 1 {
                    assert(t[t.len() - 1] == last);
                    assert(!label_lt(labels[last as int], labels[t[a] as int]));
                }
                lemma_bytes_lt_split(
                    vstd::utf8::encode_utf8(labels[x as int]),
                    vstd::utf8::encode_utf8(labels[last as int]),
                    vstd::utf8::encode_utf8(labels[t[a] as int]),
                );
            } else {
                assert(r[a] == t[a] && r[b] == t[b]);
            }
        }
        assert forall|a: int, b: int|
            0 <= a < b < r.len() && labels[#[trigger] r[a] as int] == labels[#[trigger] r[b] as int] implies r[a] < r[b] by {
            if b == r.len() - 1 {
                assert(r[a] == t[a]);
            } else {
                assert(r[a] == t[a] && r[b] == t[b]);
            }
        }
    }
}

/// Sorting an increasing sequence of indices orders it by label and keeps
/// entries with equal labels in their order in `s`.
pub proof fn lemma_sort_sorted_stable(labels: Seq<Seq<char>>, s: Seq<usize>, n: nat)
    requires
        indexes_into(s, n),
        n <= labels.len(),
        increasing(s),
    ensures
        sorted_by_label(labels, sort_by_label(labels, s)),
        stable_by_label(labels, sort_by_label(labels, s)),
    decreases s.len(),
{
    broadcast use vstd::seq_lib::group_to_multiset_ensures;

    if s.len() > 0 {
        let u = s.drop_last();
        let t = sort_by_label(labels, u);
        lemma_sort_sorted_stable(labels, u, n);
        lemma_sort_same_entries(labels, u, n);
        assert forall|k: int| 0 <= k < t.len() implies #[trigger] t[k] < s.last() by {
            assert(t.contains(t[k]));
            let j = choose|j: int| 0 <= j < u.len() && u[j] == t[k];
            assert(s[j] < s[s.len() - 1]);
        }
        lemma_insert_sorted_stable(labels, t, s.last(), n);
    }
}

} // verus!
