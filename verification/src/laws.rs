//! Properties of the whitelist that span several operations.
use vstd::prelude::*;

use crate::spec::{
    differs_from, lemma_add_facts, lemma_dedup_facts, lemma_push_contains, lemma_remove_facts,
    page_end, page_start, spec_add, spec_allowed, spec_dedup, spec_page, spec_remove,
};

verus! {

/// Adding a currency twice leaves the whitelist as adding it once.
pub proof fn lemma_add_idempotent(s: Seq<Seq<char>>, c: Seq<char>)
    ensures
        spec_add(spec_add(s, c), c) == spec_add(s, c),
{
    lemma_add_facts(s, c);
    lemma_add_facts(spec_add(s, c), c);
}

/// After `add_currency(c)` the currency is whitelisted and accepted, every other
/// currency keeps its status, and a currency that was new raises the count by one.
pub proof fn lemma_add_then_allowed(s: Seq<Seq<char>>, c: Seq<char>, other: Seq<char>)
    requires
        other != c,
    ensures
        spec_add(s, c).contains(c),
        spec_allowed(spec_add(s, c), c),
        spec_add(s, c).contains(other) == s.contains(other),
        !s.contains(c) ==> spec_add(s, c).len() == s.len() + 1,
        s.contains(c) ==> spec_add(s, c).len() == s.len(),
{
    lemma_add_facts(s, c);
}

/// After `remove_currency(c)` the currency is no longer whitelisted, every other
/// currency keeps its status, and on a whitelist without repeats that held it the count
/// drops by one.
pub proof fn lemma_remove_then_not_allowed(s: Seq<Seq<char>>, c: Seq<char>, other: Seq<char>)
    requires
        other != c,
    ensures
        !spec_remove(s, c).contains(c),
        spec_remove(s, c).contains(other) == s.contains(other),
        s.no_duplicates() && s.contains(c) ==> spec_remove(s, c).len() + 1 == s.len(),
{
    lemma_remove_facts(s, c);
    if s.no_duplicates() && s.contains(c) {
        lemma_remove_count(s, c);
    }
}

/// On a sequence without repeats that holds `c`, dropping `c` shortens it by one.
proof fn lemma_remove_count(s: Seq<Seq<char>>, c: Seq<char>)
    requires
        s.no_duplicates(),
        s.contains(c),
    ensures
        spec_remove(s, c).len() + 1 == s.len(),
    decreases s.len(),
{
    let t = s.drop_last();
    let e = s.last();
    assert(s =~= t.push(e));
    t.lemma_filter_push(e, differs_from(c));
    lemma_push_contains(t, e);
    if e == c {
        assert(!t.contains(c)) by {
            if t.contains(c) {
                let i = choose|i: int| 0 <= i < t.len() && t[i] == c;
                assert(s[i] == s[s.len() - 1]);
            }
        }
        lemma_remove_facts(t, c);
    } else {
        assert(t.no_duplicates());
        lemma_remove_count(t, c);
    }
}

/// Removing a currency that is not listed changes nothing.
pub proof fn lemma_remove_missing_is_noop(s: Seq<Seq<char>>, c: Seq<char>)
    requires
        !s.contains(c),
    ensures
        spec_remove(s, c) == s,
{
    lemma_remove_facts(s, c);
}

/// Adding puts nothing before the entries already listed: they stay first, in their
/// order, and a currency that was not listed becomes the one new last entry.
pub proof fn lemma_add_appends(s: Seq<Seq<char>>, c: Seq<char>)
    ensures
        spec_add(s, c).len() >= s.len(),
        spec_add(s, c).take(s.len() as int) == s,
        !s.contains(c) ==> spec_add(s, c).len() == s.len() + 1 && spec_add(s, c)[s.len() as int] == c,
        s.contains(c) ==> spec_add(s, c) == s,
{
    lemma_add_facts(s, c);
    assert(spec_add(s, c).take(s.len() as int) =~= s);
}

/// On a whitelist without repeats, removing the currency found at index `k` leaves the
/// entries before `k` followed by the entries after `k`, each in their original order.
pub proof fn lemma_remove_at(s: Seq<Seq<char>>, c: Seq<char>, k: int)
    requires
        s.no_duplicates(),
        0 <= k < s.len(),
        s[k] == c,
    ensures
        spec_remove(s, c) == s.subrange(0, k) + s.subrange(k + 1, s.len() as int),
{
    let n: int = s.len() as int;
    let a = s.subrange(0, k);
    let b = s.subrange(k + 1, n);
    let p = differs_from(c);
    assert(s =~= a.push(c) + b);
    assert(!a.contains(c)) by {
        if a.contains(c) {
            let i = choose|i: int| 0 <= i < a.len() && a[i] == c;
            assert(s[i] == s[k]);
        }
    }
    assert(!b.contains(c)) by {
        if b.contains(c) {
            let i = choose|i: int| 0 <= i < b.len() && b[i] == c;
            assert(s[k + 1 + i] == s[k]);
        }
    }
    lemma_remove_facts(a, c);
    lemma_remove_facts(b, c);
    Seq::filter_distributes_over_add(a.push(c), b, p);
    a.lemma_filter_push(c, p);
}

/// The order of first occurrences: for every prefix of `list`, what `set_currencies`
/// stores for the prefix is the start of what it stores for the whole list. Together with
/// `lemma_set_currencies_deduplicates` this fixes the stored list: each address at the
/// place of its first occurrence.
pub proof fn lemma_dedup_prefix(list: Seq<Seq<char>>, n: int)
    requires
        0 <= n <= list.len(),
    ensures
        spec_dedup(list.take(n)).len() <= spec_dedup(list).len(),
        spec_dedup(list).take(spec_dedup(list.take(n)).len() as int) == spec_dedup(list.take(n)),
    decreases list.len(),
{
    if n == list.len() {
        assert(list.take(n) =~= list);
        assert(spec_dedup(list).take(spec_dedup(list).len() as int) =~= spec_dedup(list));
    } else {
        let t = list.drop_last();
        assert(list.take(n) =~= t.take(n));
        lemma_dedup_prefix(t, n);
        lemma_add_appends(spec_dedup(t), list.last());
        let d = spec_dedup(list);
        let dt = spec_dedup(t);
        let dn = spec_dedup(t.take(n));
        assert(d.take(dn.len() as int) =~= dt.take(dn.len() as int));
    }
}

/// Removing a currency undoes adding it, when it was not listed before.
pub proof fn lemma_remove_undoes_add(s: Seq<Seq<char>>, c: Seq<char>)
    requires
        !s.contains(c),
    ensures
        spec_remove(spec_add(s, c), c) == s,
{
    s.lemma_filter_push(c, differs_from(c));
    lemma_remove_facts(s, c);
}

/// `set_currencies(list)` stores every address of `list` once and nothing else.
pub proof fn lemma_set_currencies_deduplicates(list: Seq<Seq<char>>, c: Seq<char>)
    ensures
        spec_dedup(list).no_duplicates(),
        spec_dedup(list).contains(c) == list.contains(c),
        spec_dedup(list).len() <= list.len(),
{
    lemma_dedup_facts(list);
}

/// `set_currencies(list)` leaves the whitelist as `clear_currencies` followed by
/// `add_currency` of each entry of `list` in turn: one more entry costs one more add.
pub proof fn lemma_set_is_clear_then_adds(list: Seq<Seq<char>>, c: Seq<char>)
    ensures
        spec_dedup(Seq::<Seq<char>>::empty()) == Seq::<Seq<char>>::empty(),
        spec_dedup(list.push(c)) == spec_add(spec_dedup(list), c),
{
    assert(list.push(c).drop_last() =~= list);
}

/// A list without repeats is stored as it is, in the same order.
pub proof fn lemma_dedup_keeps_distinct(list: Seq<Seq<char>>)
    requires
        list.no_duplicates(),
    ensures
        spec_dedup(list) == list,
    decreases list.len(),
{
    if list.len() > 0 {
        let t = list.drop_last();
        assert(t.no_duplicates());
        lemma_dedup_keeps_distinct(t);
        assert(!t.contains(list.last())) by {
            if t.contains(list.last()) {
                let i = choose|i: int| 0 <= i < t.len() && t[i] == list.last();
                assert(list[i] == list[list.len() - 1]);
            }
        }
        assert(list =~= t.push(list.last()));
    }
}

/// An empty whitelist, as after `clear_currencies`, accepts every token.
pub proof fn lemma_empty_allows_all(c: Seq<char>)
    ensures
        spec_allowed(Seq::<Seq<char>>::empty(), c),
{
}

/// A non-empty whitelist accepts exactly the tokens it lists.
pub proof fn lemma_nonempty_allows_listed(s: Seq<Seq<char>>, c: Seq<char>)
    requires
        s.len() > 0,
    ensures
        spec_allowed(s, c) == s.contains(c),
{
}

/// A page holds `min(limit, len - offset)` entries when the offset lies inside the
/// whitelist and none otherwise; its `i`-th entry is entry `offset + i` of the whitelist.
pub proof fn lemma_page_shape(s: Seq<Seq<char>>, offset: u32, limit: u32, i: int)
    ensures
        spec_page(s, offset, limit).len() == (if offset >= s.len() {
            0
        } else if limit <= s.len() - offset {
            limit as int
        } else {
            s.len() - offset
        }),
        0 <= i < spec_page(s, offset, limit).len() ==> spec_page(s, offset, limit)[i] == s[offset + i],
{
}

/// Two consecutive pages together are the page that spans both.
pub proof fn lemma_pages_concatenate(s: Seq<Seq<char>>, offset: u32, a: u32, b: u32)
    requires
        offset + a + b <= u32::MAX,
    ensures
        spec_page(s, offset, a) + spec_page(s, (offset + a) as u32, b) == spec_page(
            s,
            offset,
            (a + b) as u32,
        ),
{
    let n: nat = s.len();
    assert(page_end(n, offset, a) == page_start(n, (offset + a) as u32));
    assert(spec_page(s, offset, a) + spec_page(s, (offset + a) as u32, b) =~= spec_page(
        s,
        offset,
        (a + b) as u32,
    ));
}

/// The offset of page number `i` when pages of size `k` are read one after another.
pub open spec fn walk_offset(k: u32, i: nat) -> int {
    i * k
}

/// The first `m` pages of size `k`, read at offsets `0, k, 2k, ...` and joined.
pub open spec fn walked_pages(s: Seq<Seq<char>>, k: u32, m: nat) -> Seq<Seq<char>>
    decreases m,
{
    if m == 0 {
        Seq::empty()
    } else {
        walked_pages(s, k, (m - 1) as nat) + spec_page(s, walk_offset(k, (m - 1) as nat) as u32, k)
    }
}

/// While their offsets stay inside the whitelist, the first `j` pages of size `k` are
/// its first `min(j * k, len)` entries.
proof fn lemma_walk_prefix(s: Seq<Seq<char>>, k: u32, j: nat)
    requires
        k > 0,
        s.len() <= u32::MAX,
        j == 0 || walk_offset(k, (j - 1) as nat) < s.len(),
    ensures
        walked_pages(s, k, j) == s.subrange(
            0,
            if walk_offset(k, j) <= s.len() {
                walk_offset(k, j)
            } else {
                s.len() as int
            },
        ),
    decreases j,
{
    if j == 0 {
        assert(j * k == 0) by (nonlinear_arith)
            requires
                j == 0,
        ;
        assert(walked_pages(s, k, j) =~= s.subrange(0, 0));
    } else {
        let p: nat = (j - 1) as nat;
        assert(p * k + k == j * k) by (nonlinear_arith)
            requires
                p + 1 == j,
        ;
        if p > 0 {
            assert((p - 1) * k <= p * k) by (nonlinear_arith)
                requires
                    p >= 1,
                    k > 0,
            ;
        }
        assert(0 <= p * k) by (nonlinear_arith)
            requires
                k > 0,
        ;
        lemma_walk_prefix(s, k, p);
        let o: int = walk_offset(k, p);
        assert(o == p * k);
        assert(walked_pages(s, k, j) == walked_pages(s, k, p) + spec_page(s, o as u32, k));
        assert(walked_pages(s, k, j) =~= s.subrange(
            0,
            if walk_offset(k, j) <= s.len() {
                walk_offset(k, j)
            } else {
                s.len() as int
            },
        ));
    }
}

/// Reading pages of size `k > 0` at offsets `0, k, 2k, ...` until the first empty page
/// gives the whole whitelist in order: there is a number `m` of pages whose offsets all
/// lie inside the whitelist (so none of them is empty), which joined are the whitelist,
/// and the offset `m * k` after them lies at or beyond its end (so the page there, when
/// that offset fits a `u32`, is empty).
pub proof fn lemma_page_walk(s: Seq<Seq<char>>, k: u32) -> (m: nat)
    requires
        k > 0,
        s.len() <= u32::MAX,
    ensures
        walked_pages(s, k, m) == s,
        forall|i: nat| i < m ==> #[trigger] walk_offset(k, i) < s.len(),
        forall|i: nat| i < m ==> #[trigger] spec_page(s, walk_offset(k, i) as u32, k).len() > 0,
        walk_offset(k, m) >= s.len(),
        walk_offset(k, m) <= u32::MAX ==> spec_page(s, walk_offset(k, m) as u32, k).len() == 0,
{
    let len: int = s.len() as int;
    let m: nat = ((len + k - 1) / (k as int)) as nat;
    assert(m * k >= len && (m == 0 || (m - 1) * k < len)) by (nonlinear_arith)
        requires
            k > 0,
            len >= 0,
            m == (len + k - 1) / (k as int),
    ;
    assert forall|i: nat| i < m implies #[trigger] walk_offset(k, i) < s.len() by {
        assert(i * k <= (m - 1) * k) by (nonlinear_arith)
            requires
                i < m,
                k > 0,
        ;
    }
    assert forall|i: nat| i < m implies #[trigger] spec_page(s, walk_offset(k, i) as u32, k).len() > 0 by {
        assert(walk_offset(k, i) < s.len());
        assert(0 <= i * k) by (nonlinear_arith)
            requires
                k > 0,
        ;
    }
    lemma_walk_prefix(s, k, m);
    assert(s.subrange(0, len) =~= s);
    m
}

/// A page from offset zero whose limit reaches the end is the whole whitelist.
pub proof fn lemma_full_page(s: Seq<Seq<char>>, limit: u32)
    requires
        limit >= s.len(),
    ensures
        spec_page(s, 0, limit) == s,
{
    assert(spec_page(s, 0, limit) =~= s);
}

/// A page of a whitelist without repeats holds no repeats.
pub proof fn lemma_page_no_duplicates(s: Seq<Seq<char>>, offset: u32, limit: u32)
    requires
        s.no_duplicates(),
    ensures
        spec_page(s, offset, limit).no_duplicates(),
{
}

} // verus!
