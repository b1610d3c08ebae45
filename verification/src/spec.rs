//! The mathematical model of the whitelist: a sequence of strkeys without repeats.
use vstd::prelude::*;

use crate::address::Address;

verus! {

/// The strkeys of a sequence of addresses, in order.
pub open spec fn keys(v: Seq<Address>) -> Seq<Seq<char>> {
    v.map_values(|a: Address| a@)
}

/// The whitelist after `add_currency(c)`: unchanged when `c` is already listed,
/// otherwise `c` appended at the end.
pub open spec fn spec_add(s: Seq<Seq<char>>, c: Seq<char>) -> Seq<Seq<char>> {
    if s.contains(c) {
        s
    } else {
        s.push(c)
    }
}

/// Keeps every entry other than `c`.
pub open spec fn differs_from(c: Seq<char>) -> spec_fn(Seq<char>) -> bool {
    |x: Seq<char>| x != c
}

/// The whitelist after `remove_currency(c)`: every entry other than `c`, in the same order.
pub open spec fn spec_remove(s: Seq<Seq<char>>, c: Seq<char>) -> Seq<Seq<char>> {
    s.filter(differs_from(c))
}

/// The whitelist that `set_currencies(list)` stores: `list` with every repeat after the
/// first occurrence dropped, that is `list` added entry by entry to an empty whitelist.
pub open spec fn spec_dedup(list: Seq<Seq<char>>) -> Seq<Seq<char>>
    decreases list.len(),
{
    if list.len() == 0 {
        Seq::empty()
    } else {
        spec_add(spec_dedup(list.drop_last()), list.last())
    }
}

/// Whether a token may be used for an invoice or a bid: an empty whitelist allows
/// every token, a non-empty one only the tokens it lists.
pub open spec fn spec_allowed(s: Seq<Seq<char>>, c: Seq<char>) -> bool {
    s.len() == 0 || s.contains(c)
}

/// The first index of a page: the offset, or the length when the offset lies beyond it.
pub open spec fn page_start(len: nat, offset: u32) -> int {
    if offset <= len {
        offset as int
    } else {
        len as int
    }
}

/// One past the last index of a page: `offset + limit`, cut at the length.
pub open spec fn page_end(len: nat, offset: u32, limit: u32) -> int {
    if offset + limit <= len {
        offset + limit
    } else {
        len as int
    }
}

/// The page of `s` that `get_whitelisted_currencies_paged(offset, limit)` returns.
pub open spec fn spec_page(s: Seq<Seq<char>>, offset: u32, limit: u32) -> Seq<Seq<char>> {
    s.subrange(page_start(s.len(), offset), page_end(s.len(), offset, limit))
}

} // verus!

verus! {

/// Membership in a sequence with one entry appended.
pub proof fn lemma_push_contains(s: Seq<Seq<char>>, e: Seq<char>)
    ensures
        forall|x: Seq<char>| #[trigger] s.push(e).contains(x) <==> (s.contains(x) || x == e),
{
    let t = s.push(e);
    assert(t[s.len() as int] == e);
    assert forall|x: Seq<char>| #[trigger] t.contains(x) <==> (s.contains(x) || x == e) by {
        if t.contains(x) {
            let i = choose|i: int| 0 <= i < t.len() && t[i] == x;
            if i < s.len() {
                assert(s[i] == x);
            }
        }
        if s.contains(x) {
            let i = choose|i: int| 0 <= i < s.len() && s[i] == x;
            assert(t[i] == x);
        }
    }
}

/// What `spec_add` keeps and what it brings in.
pub proof fn lemma_add_facts(s: Seq<Seq<char>>, c: Seq<char>)
    ensures
        spec_add(s, c).contains(c),
        forall|x: Seq<char>| #[trigger] spec_add(s, c).contains(x) <==> (s.contains(x) || x == c),
        s.no_duplicates() ==> spec_add(s, c).no_duplicates(),
        spec_add(s, c).len() <= s.len() + 1,
        s.contains(c) ==> spec_add(s, c) == s,
        !s.contains(c) ==> spec_add(s, c).len() == s.len() + 1,
{
    lemma_push_contains(s, c);
}

/// What `spec_remove` keeps and what it drops.
pub proof fn lemma_remove_facts(s: Seq<Seq<char>>, c: Seq<char>)
    ensures
        !spec_remove(s, c).contains(c),
        forall|x: Seq<char>|
            x != c ==> (#[trigger] spec_remove(s, c).contains(x) <==> s.contains(x)),
        s.no_duplicates() ==> spec_remove(s, c).no_duplicates(),
        spec_remove(s, c).len() <= s.len(),
        !s.contains(c) ==> spec_remove(s, c) == s,
    decreases s.len(),
{
    if s.len() > 0 {
        let t = s.drop_last();
        let e = s.last();
        lemma_remove_facts(t, c);
        assert(s =~= t.push(e));
        t.lemma_filter_push(e, differs_from(c));
        let rt = spec_remove(t, c);
        lemma_push_contains(t, e);
        if e != c {
            lemma_push_contains(rt, e);
            lemma_add_facts(rt, e);
            if s.no_duplicates() {
                assert(t.no_duplicates());
                assert(!t.contains(e));
            }
            assert(!rt.contains(e) ==> spec_add(rt, e) == rt.push(e));
        }
        if !s.contains(c) {
            assert(!t.contains(c));
        }
    } else {
        reveal_with_fuel(Seq::filter, 1);
    }
}

/// What `spec_dedup` keeps: every entry once, nothing else.
pub proof fn lemma_dedup_facts(s: Seq<Seq<char>>)
    ensures
        spec_dedup(s).no_duplicates(),
        forall|x: Seq<char>| #[trigger] spec_dedup(s).contains(x) <==> s.contains(x),
        spec_dedup(s).len() <= s.len(),
    decreases s.len(),
{
    if s.len() > 0 {
        let t = s.drop_last();
        let e = s.last();
        lemma_dedup_facts(t);
        lemma_add_facts(spec_dedup(t), e);
        assert(s =~= t.push(e));
        lemma_push_contains(t, e);
    }
}

} // verus!
