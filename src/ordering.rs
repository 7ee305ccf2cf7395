//! Newest-first ordering of version strings, stable on equal keys, and
//! truncation to a requested count.
use vstd::prelude::*;
use core::cmp::Ordering;
use crate::version::{
    Token,
    VersionComponent,
    compare_keys,
    compare_versions,
    key_view,
    lemma_keys_antisymmetric,
    lemma_keys_reflexive,
    lemma_keys_transitive,
    parse_version,
    version_key,
};

verus! {

/// The count of versions returned when the caller names none.
pub const DEFAULT_LIMIT: usize = 25;

/// `a` orders strictly below `b`.
pub open spec fn older(a: Seq<char>, b: Seq<char>) -> bool {
    compare_keys(version_key(a), version_key(b)) == Ordering::Less
}

/// Puts `x` into a newest-first sequence after every element that is not
/// older than it.
pub open spec fn insert_desc(x: Seq<char>, t: Seq<Seq<char>>) -> Seq<Seq<char>>
    decreases t.len(),
{
    if t.len() == 0 {
        seq![x]
    } else if older(t[0], x) {
        seq![x] + t
    } else {
        seq![t[0]] + insert_desc(x, t.drop_first())
    }
}

/// The stable newest-first sort of `s`.
pub open spec fn sort_desc(s: Seq<Seq<char>>) -> Seq<Seq<char>>
    decreases s.len(),
{
    if s.len() == 0 {
        seq![]
    } else {
        insert_desc(s.last(), sort_desc(s.drop_last()))
    }
}

/// The first `limit` entries of the newest-first sort of `s`.
pub open spec fn newest_first(s: Seq<Seq<char>>, limit: nat) -> Seq<Seq<char>> {
    let n = if limit < s.len() {
        limit as int
    } else {
        s.len() as int
    };
    sort_desc(s).take(n)
}

pub open spec fn views(v: Seq<String>) -> Seq<Seq<char>> {
    v.map_values(|s: String| s@)
}

/// No element of `t` is older than one after it.
pub open spec fn is_newest_first(t: Seq<Seq<char>>) -> bool {
    forall|i: int, j: int| 0 <= i < j < t.len() ==> !older(#[trigger] t[i], #[trigger] t[j])
}

proof fn lemma_older_total(a: Seq<char>, b: Seq<char>, c: Seq<char>)
    ensures
        older(a, b) && older(b, c) ==> older(a, c),
        !older(a, b) && older(a, c) ==> older(b, c),
        !older(a, b) ==> (older(b, a) || version_key(a) == version_key(b)),
        older(a, b) ==> !older(b, a),
{
    let (ka, kb, kc) = (version_key(a), version_key(b), version_key(c));
    lemma_keys_antisymmetric(ka, kb);
    lemma_keys_antisymmetric(kb, ka);
    if older(a, b) && older(b, c) {
        lemma_keys_transitive(ka, kb, kc);
    }
    if !older(a, b) && older(a, c) && !older(b, a) {
        assert(ka == kb);
    }
    if !older(a, b) && older(a, c) && older(b, a) {
        lemma_keys_transitive(kb, ka, kc);
    }
}

/// `insert_desc` puts `x` before the first element older than it.
proof fn lemma_insert_at(x: Seq<char>, t: Seq<Seq<char>>, p: int)
    requires
        0 <= p <= t.len(),
        forall|q: int| 0 <= q < p ==> !older(#[trigger] t[q], x),
        p < t.len() ==> older(t[p], x),
    ensures
        insert_desc(x, t) == t.insert(p, x),
    decreases t.len(),
{
    if t.len() == 0 {
        assert(t.insert(p, x) =~= seq![x]);
    } else if p == 0 {
        assert(t.insert(p, x) =~= seq![x] + t);
    } else {
        let r = t.drop_first();
        assert forall|q: int| 0 <= q < p - 1 implies !older(#[trigger] r[q], x) by {
            assert(r[q] == t[q + 1]);
        }
        lemma_insert_at(x, r, p - 1);
        assert(t.insert(p, x) =~= seq![t[0]] + r.insert(p - 1, x));
    }
}

proof fn lemma_insert_len(x: Seq<char>, t: Seq<Seq<char>>)
    ensures
        insert_desc(x, t).len() == t.len() + 1,
    decreases t.len(),
{
    if t.len() > 0 {
        lemma_insert_len(x, t.drop_first());
    }
}

proof fn lemma_sort_len(s: Seq<Seq<char>>)
    ensures
        sort_desc(s).len() == s.len(),
    decreases s.len(),
{
    if s.len() > 0 {
        lemma_sort_len(s.drop_last());
        lemma_insert_len(s.last(), sort_desc(s.drop_last()));
    }
}


proof fn lemma_insert_newest_first(x: Seq<char>, t: Seq<Seq<char>>)
    requires
        is_newest_first(t),
    ensures
        is_newest_first(insert_desc(x, t)),
        forall|i: int|
            0 <= i < insert_desc(x, t).len() ==> #[trigger] insert_desc(x, t)[i] == x || t.contains(
                insert_desc(x, t)[i],
            ),
    decreases t.len(),
{
    lemma_insert_len(x, t);
    let ins = insert_desc(x, t);
    if t.len() == 0 {
    } else if older(t[0], x) {
        assert forall|i: int, j: int| 0 <= i < j < ins.len() implies !older(
            #[trigger] ins[i],
            #[trigger] ins[j],
        ) by {
            if i == 0 {
                assert(ins[j] == t[j - 1]);
                if j - 1 > 0 {
                    assert(!older(t[0], t[j - 1]));
                }
                lemma_older_total(t[0], t[j - 1], x);
                lemma_older_total(t[j - 1], x, x);
                assert(ins[0] == x);
            } else {
                assert(ins[i] == t[i - 1] && ins[j] == t[j - 1]);
            }
        }
        assert forall|i: int| 0 <= i < ins.len() implies #[trigger] ins[i] == x || t.contains(
            ins[i],
        ) by {
            if i > 0 {
                assert(ins[i] == t[i - 1]);
            }
        }
    } else {
        let rest = t.drop_first();
        assert forall|i: int, j: int| 0 <= i < j < rest.len() implies !older(
            #[trigger] rest[i],
            #[trigger] rest[j],
        ) by {
            assert(rest[i] == t[i + 1] && rest[j] == t[j + 1]);
        }
        lemma_insert_newest_first(x, rest);
        let r = insert_desc(x, rest);
        assert(ins =~= seq![t[0]] + r);
        assert forall|i: int| 0 <= i < ins.len() implies #[trigger] ins[i] == x || t.contains(
            ins[i],
        ) by {
            if i == 0 {
                assert(t[0] == ins[0]);
            } else {
                assert(ins[i] == r[i - 1]);
                if r[i - 1] != x {
                    let m = choose|m: int| 0 <= m < rest.len() && rest[m] == r[i - 1];
                    assert(t[m + 1] == ins[i]);
                }
            }
        }
        assert forall|i: int, j: int| 0 <= i < j < ins.len() implies !older(
            #[trigger] ins[i],
            #[trigger] ins[j],
        ) by {
            if i == 0 {
                assert(ins[j] == r[j - 1]);
                if r[j - 1] != x {
                    let m = choose|m: int| 0 <= m < rest.len() && rest[m] == r[j - 1];
                    assert(t[m + 1] == ins[j]);
                    assert(!older(t[0], t[m + 1]));
                }
            } else {
                assert(ins[i] == r[i - 1] && ins[j] == r[j - 1]);
            }
        }
    }
}

/// The sort leaves no element below an older one.
pub proof fn lemma_sort_is_newest_first(s: Seq<Seq<char>>)
    ensures
        is_newest_first(sort_desc(s)),
    decreases s.len(),
{
    if s.len() > 0 {
        lemma_sort_is_newest_first(s.drop_last());
        lemma_insert_newest_first(s.last(), sort_desc(s.drop_last()));
    }
}

/// A sequence already newest first is its own sort.
pub proof fn lemma_sort_fixes_sorted(t: Seq<Seq<char>>)
    requires
        is_newest_first(t),
    ensures
        sort_desc(t) == t,
    decreases t.len(),
{
    if t.len() > 0 {
        let front = t.drop_last();
        assert forall|i: int, j: int| 0 <= i < j < front.len() implies !older(
            #[trigger] front[i],
            #[trigger] front[j],
        ) by {
            assert(front[i] == t[i] && front[j] == t[j]);
        }
        lemma_sort_fixes_sorted(front);
        assert forall|q: int| 0 <= q < front.len() implies !older(#[trigger] front[q], t.last()) by {
            assert(front[q] == t[q]);
        }
        lemma_insert_at(t.last(), front, front.len() as int);
        assert(front.insert(front.len() as int, t.last()) =~= t);
    }
}

/// Sorting a second time changes nothing.
pub proof fn lemma_sort_idempotent(s: Seq<Seq<char>>)
    ensures
        sort_desc(sort_desc(s)) == sort_desc(s),
{
    lemma_sort_is_newest_first(s);
    lemma_sort_fixes_sorted(sort_desc(s));
}

/// With `limit` below the number of versions, exactly `limit` of them are kept,
/// the first ones of the full sort; otherwise the full sort is returned.
pub proof fn lemma_truncation(s: Seq<Seq<char>>, limit: nat)
    ensures
        limit < s.len() ==> newest_first(s, limit).len() == limit,
        limit < s.len() ==> newest_first(s, limit) == sort_desc(s).take(limit as int),
        limit >= s.len() ==> newest_first(s, limit) == sort_desc(s),
{
    lemma_sort_len(s);
    assert(sort_desc(s).take(s.len() as int) =~= sort_desc(s));
}


/// The elements of `s` whose key is `k`, in order.
pub open spec fn with_key(s: Seq<Seq<char>>, k: Seq<Token>) -> Seq<Seq<char>>
    decreases s.len(),
{
    if s.len() == 0 {
        seq![]
    } else if version_key(s.last()) == k {
        with_key(s.drop_last(), k).push(s.last())
    } else {
        with_key(s.drop_last(), k)
    }
}

proof fn lemma_with_key_append(a: Seq<Seq<char>>, b: Seq<Seq<char>>, k: Seq<Token>)
    ensures
        with_key(a + b, k) == with_key(a, k) + with_key(b, k),
    decreases b.len(),
{
    if b.len() == 0 {
        assert(a + b =~= a);
        assert(with_key(a, k) + with_key(b, k) =~= with_key(a, k));
    } else {
        lemma_with_key_append(a, b.drop_last(), k);
        assert((a + b).drop_last() =~= a + b.drop_last());
        assert((a + b).last() == b.last());
        assert((with_key(a, k) + with_key(b.drop_last(), k)).push(b.last()) =~= with_key(a, k)
            + with_key(b.drop_last(), k).push(b.last()));
    }
}

proof fn lemma_with_key_none(s: Seq<Seq<char>>, k: Seq<Token>)
    requires
        forall|i: int| 0 <= i < s.len() ==> version_key(#[trigger] s[i]) != k,
    ensures
        with_key(s, k) == Seq::<Seq<char>>::empty(),
    decreases s.len(),
{
    if s.len() > 0 {
        assert(s[s.len() - 1] == s.last());
        lemma_with_key_none(s.drop_last(), k);
    }
}

/// Where `insert_desc` puts `x` into `t`.
pub open spec fn insert_pos(x: Seq<char>, t: Seq<Seq<char>>) -> int
    decreases t.len(),
{
    if t.len() == 0 || older(t[0], x) {
        0
    } else {
        1 + insert_pos(x, t.drop_first())
    }
}

proof fn lemma_insert_pos(x: Seq<char>, t: Seq<Seq<char>>)
    ensures
        0 <= insert_pos(x, t) <= t.len(),
        forall|q: int| 0 <= q < insert_pos(x, t) ==> !older(#[trigger] t[q], x),
        insert_pos(x, t) < t.len() ==> older(t[insert_pos(x, t)], x),
    decreases t.len(),
{
    if t.len() > 0 && !older(t[0], x) {
        let r = t.drop_first();
        lemma_insert_pos(x, r);
        assert forall|q: int| 0 <= q < insert_pos(x, t) implies !older(#[trigger] t[q], x) by {
            if q > 0 {
                assert(t[q] == r[q - 1]);
            }
        }
    }
}

/// Versions with equal keys leave the sort in the order in which they came.
pub proof fn lemma_sort_stable(s: Seq<Seq<char>>, k: Seq<Token>)
    ensures
        with_key(sort_desc(s), k) == with_key(s, k),
    decreases s.len(),
{
    if s.len() > 0 {
        let x = s.last();
        let front = s.drop_last();
        let t = sort_desc(front);
        lemma_sort_stable(front, k);
        lemma_sort_is_newest_first(front);
        lemma_insert_pos(x, t);
        let p = insert_pos(x, t);
        lemma_insert_at(x, t, p);
        let head = t.take(p);
        let tail = t.skip(p);
        assert(t.insert(p, x) =~= head + seq![x] + tail);
        assert(t =~= head + tail);
        lemma_with_key_append(head + seq![x], tail, k);
        lemma_with_key_append(head, seq![x], k);
        lemma_with_key_append(head, tail, k);
        let single = seq![x];
        assert(single.drop_last() =~= Seq::<Seq<char>>::empty());
        assert(single.last() == x);
        assert(with_key(single.drop_last(), k) == Seq::<Seq<char>>::empty());
        if version_key(x) == k {
            assert(with_key(single, k) =~= seq![x]);
        } else {
            assert(with_key(single, k) =~= Seq::<Seq<char>>::empty());
        }
        if version_key(x) == k {
            assert forall|i: int| 0 <= i < tail.len() implies version_key(#[trigger] tail[i]) != k by {
                assert(tail[i] == t[p + i]);
                if i > 0 {
                    assert(!older(t[p], t[p + i]));
                    lemma_older_total(t[p], t[p + i], x);
                }
                lemma_keys_reflexive(k);
            }
            lemma_with_key_none(tail, k);
            assert(with_key(head, k) + Seq::<Seq<char>>::empty() =~= with_key(head, k));
            assert(with_key(head, k) + with_key(seq![x], k) =~= with_key(head, k).push(x));
        } else {
            assert(with_key(head, k) + with_key(seq![x], k) =~= with_key(head, k));
        }
    }
}


/// The sort neither drops, adds nor merges versions.
pub proof fn lemma_sort_permutes(s: Seq<Seq<char>>)
    ensures
        sort_desc(s).to_multiset() == s.to_multiset(),
    decreases s.len(),
{
    if s.len() > 0 {
        let x = s.last();
        let front = s.drop_last();
        let t = sort_desc(front);
        lemma_sort_permutes(front);
        lemma_insert_pos(x, t);
        lemma_insert_at(x, t, insert_pos(x, t));
        vstd::seq_lib::to_multiset_insert(t, insert_pos(x, t), x);
        vstd::seq_lib::to_multiset_build(front, x);
        assert(front.push(x) =~= s);
        assert(sort_desc(s) == t.insert(insert_pos(x, t), x));
    } else {
        assert(sort_desc(s) =~= s);
    }
}

fn is_less(o: Ordering) -> (r: bool)
    ensures
        r == (o == Ordering::Less),
{
    match o {
        Ordering::Less => true,
        _ => false,
    }
}

/// Orders `versions` newest first, equal keys in their input order, and
/// keeps the first `limit` of them.
pub fn order_versions(versions: &Vec<String>, limit: usize) -> (r: Vec<String>)
    ensures
        views(r@) == newest_first(views(versions@), limit as nat),
{
    let ghost input = views(versions@);
    let n = versions.len();
    let mut out: Vec<String> = Vec::new();
    let mut keys: Vec<Vec<VersionComponent>> = Vec::new();
    let mut i: usize = 0;
    while i < n
        invariant
            n == versions@.len(),
            input == views(versions@),
            i <= n,
            views(out@) == sort_desc(input.take(i as int)),
            keys@.len() == out@.len(),
            forall|j: int| 0 <= j < keys@.len() ==> key_view(#[trigger] keys@[j]@) == version_key(out@[j]@),
        decreases n - i,
    {
        let x = &versions[i];
        let k = parse_version(x.as_str());
        let ghost t = views(out@);
        let mut p: usize = 0;
        while p < out.len() && !is_less(compare_versions(&keys[p], &k))
            invariant
                p <= out@.len(),
                t == views(out@),
                keys@.len() == out@.len(),
                forall|j: int| 0 <= j < keys@.len() ==> key_view(#[trigger] keys@[j]@) == version_key(out@[j]@),
                key_view(k@) == version_key(x@),
                forall|q: int| 0 <= q < p ==> !older(#[trigger] t[q], x@),
            decreases out@.len() - p,
        {
            assert(t[p as int] == out@[p as int]@);
            p = p + 1;
        }
        proof {
            if p < out@.len() {
                assert(t[p as int] == out@[p as int]@);
            }
            lemma_insert_at(x@, t, p as int);
            assert(input.take(i + 1).drop_last() =~= input.take(i as int));
            assert(input.take(i + 1).last() == x@);
        }
        keys.insert(p, k);
        out.insert(p, x.clone());
        assert(views(out@) =~= t.insert(p as int, x@));
        i = i + 1;
    }
    assert(input.take(n as int) =~= input);
    proof {
        lemma_sort_len(input);
    }
    out.truncate(limit);
    assert(views(out@) =~= newest_first(input, limit as nat));
    out
}

} // verus!
