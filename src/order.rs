//! The final order of the listing: by name, compared in lowercase.
use crate::entry::{Desktop, DesktopView};
use crate::listing::views;
use vstd::multiset::Multiset;
use vstd::prelude::*;
use vstd::seq_lib::*;
use vstd::string::*;

verus! {

/// The lowercase form that `str::to_lowercase` gives of a text.
pub uninterp spec fn lower_of(s: Seq<char>) -> Seq<char>;

/// Relies on `str::to_lowercase`: the lowercase form of the text, which
/// depends on its characters alone.
#[verifier::external_body]
fn lowercase(s: &str) -> (r: String)
    ensures
        r@ == lower_of(s@),
{
    s.to_lowercase()
}

/// `a` comes strictly before `b`, comparing characters by code point, a proper
/// prefix first: the order of Rust's `str`.
pub open spec fn lex_lt(a: Seq<char>, b: Seq<char>) -> bool
    decreases a.len(),
{
    if b.len() == 0 {
        false
    } else if a.len() == 0 {
        true
    } else if a[0] != b[0] {
        (a[0] as u32) < (b[0] as u32)
    } else {
        lex_lt(a.drop_first(), b.drop_first())
    }
}

/// Whether `a` comes strictly before `b` (see [`lex_lt`]).
pub fn lex_less(a: &str, b: &str) -> (r: bool)
    ensures
        r == lex_lt(a@, b@),
{
    let na = a.unicode_len();
    let nb = b.unicode_len();
    let mut i: usize = 0;
    assert(a@.subrange(0, na as int) =~= a@);
    assert(b@.subrange(0, nb as int) =~= b@);
    loop
        invariant
            na == a@.len(),
            nb == b@.len(),
            i <= na,
            i <= nb,
            lex_lt(a@, b@) == lex_lt(a@.subrange(i as int, na as int), b@.subrange(i as int, nb as int)),
        decreases na - i,
    {
        if i == nb {
            return false;
        }
        if i == na {
            return true;
        }
        let ca = a.get_char(i);
        let cb = b.get_char(i);
        let ghost sa = a@.subrange(i as int, na as int);
        let ghost sb = b@.subrange(i as int, nb as int);
        assert(sa[0] == ca && sb[0] == cb);
        if ca != cb {
            return (ca as u32) < (cb as u32);
        }
        assert(sa.drop_first() =~= a@.subrange(i + 1, na as int));
        assert(sb.drop_first() =~= b@.subrange(i + 1, nb as int));
        i = i + 1;
    }
}

proof fn lemma_lex_lt_transitive(a: Seq<char>, b: Seq<char>, c: Seq<char>)
    requires
        lex_lt(a, b),
        lex_lt(b, c),
    ensures
        lex_lt(a, c),
    decreases a.len(),
{
    if a.len() > 0 && b.len() > 0 && c.len() > 0 && a[0] == b[0] && b[0] == c[0] {
        lemma_lex_lt_transitive(a.drop_first(), b.drop_first(), c.drop_first());
    }
}

proof fn lemma_lex_lt_irreflexive(a: Seq<char>)
    ensures
        !lex_lt(a, a),
    decreases a.len(),
{
    if a.len() > 0 {
        lemma_lex_lt_irreflexive(a.drop_first());
    }
}

/// The key the listing is sorted by.
pub open spec fn sort_key(d: DesktopView) -> Seq<char> {
    lower_of(d.name)
}

/// The first index of `s` whose key comes strictly after `k`, or `s.len()`.
pub open spec fn first_after(s: Seq<DesktopView>, k: Seq<char>) -> int
    decreases s.len(),
{
    if s.len() == 0 {
        0
    } else if lex_lt(k, sort_key(s[0])) {
        0
    } else {
        1 + first_after(s.drop_first(), k)
    }
}

/// `x` put after every entry whose key is not after its own.
pub open spec fn insert_sorted(s: Seq<DesktopView>, x: DesktopView) -> Seq<DesktopView> {
    s.insert(first_after(s, sort_key(x)), x)
}

/// The entries sorted by key, stably: insertion sort, each entry placed after
/// every earlier one whose key is not after its own.
pub open spec fn sort_by_lower(es: Seq<DesktopView>) -> Seq<DesktopView>
    decreases es.len(),
{
    if es.len() == 0 {
        Seq::empty()
    } else {
        insert_sorted(sort_by_lower(es.drop_last()), es.last())
    }
}

/// No entry has a key strictly before that of an entry ahead of it.
pub open spec fn sorted_by_lower(s: Seq<DesktopView>) -> bool {
    forall|i: int, j: int|
        0 <= i < j < s.len() ==> !lex_lt(sort_key(#[trigger] s[j]), sort_key(#[trigger] s[i]))
}

proof fn lemma_first_after(s: Seq<DesktopView>, k: Seq<char>)
    ensures
        0 <= first_after(s, k) <= s.len(),
        forall|q: int| 0 <= q < first_after(s, k) ==> !lex_lt(k, sort_key(#[trigger] s[q])),
        first_after(s, k) < s.len() ==> lex_lt(k, sort_key(s[first_after(s, k)])),
    decreases s.len(),
{
    if s.len() > 0 && !lex_lt(k, sort_key(s[0])) {
        let t = s.drop_first();
        lemma_first_after(t, k);
        assert forall|q: int| 0 <= q < first_after(s, k) implies !lex_lt(k, sort_key(#[trigger] s[q])) by {
            if q > 0 {
                assert(s[q] == t[q - 1]);
            }
        }
    }
}

proof fn lemma_insert_sorted(s: Seq<DesktopView>, x: DesktopView)
    requires
        sorted_by_lower(s),
    ensures
        sorted_by_lower(insert_sorted(s, x)),
        insert_sorted(s, x).to_multiset() == s.to_multiset().insert(x),
{
    let k = sort_key(x);
    let p = first_after(s, k);
    lemma_first_after(s, k);
    let t = s.insert(p, x);
    assert forall|i: int, j: int| 0 <= i < j < t.len() implies !lex_lt(
        sort_key(#[trigger] t[j]),
        sort_key(#[trigger] t[i]),
    ) by {
        if i == p {
            assert(t[j] == s[j - 1]);
            if lex_lt(sort_key(s[j - 1]), k) {
                lemma_lex_lt_transitive(sort_key(s[j - 1]), k, sort_key(s[p]));
                lemma_lex_lt_irreflexive(sort_key(s[p]));
                if p < j - 1 {
                    assert(!lex_lt(sort_key(s[j - 1]), sort_key(s[p])));
                }
            }
        } else if j == p {
            assert(t[i] == s[i]);
        } else {
            let si = if i < p { i } else { i - 1 };
            let sj = if j < p { j } else { j - 1 };
            assert(t[i] == s[si] && t[j] == s[sj]);
        }
    }
    broadcast use group_to_multiset_ensures;
    assert(t.remove(p) =~= s);
    assert(t[p] == x);
    assert(t.to_multiset().count(x) > 0);
    assert(t.to_multiset() =~= s.to_multiset().insert(x));
}

/// The sort leaves the listing ordered by lowercase name, and holds the same
/// entries, each as often, as it was given.
pub proof fn sort_orders_by_lowercase_name(es: Seq<DesktopView>)
    ensures
        sorted_by_lower(sort_by_lower(es)),
        sort_by_lower(es).to_multiset() == es.to_multiset(),
    decreases es.len(),
{
    broadcast use group_to_multiset_ensures;
    if es.len() == 0 {
        assert(es.to_multiset() =~= Multiset::empty());
        assert(sort_by_lower(es).to_multiset() =~= Multiset::empty());
    } else {
        sort_orders_by_lowercase_name(es.drop_last());
        lemma_insert_sorted(sort_by_lower(es.drop_last()), es.last());
        assert(es.drop_last().push(es.last()) =~= es);
    }
}

fn insert_position(out: &Vec<Desktop>, key: &String) -> (r: usize)
    ensures
        r as int == first_after(views(out@), key@),
{
    let ghost s = views(out@);
    let n = out.len();
    let mut q: usize = 0;
    assert(s.subrange(0, n as int) =~= s);
    while q < n
        invariant
            n == out@.len(),
            s == views(out@),
            q <= n,
            first_after(s, key@) == q + first_after(s.subrange(q as int, n as int), key@),
        decreases n - q,
    {
        let kq = lowercase(out[q].name.as_str());
        let ghost rest = s.subrange(q as int, n as int);
        assert(rest[0] == out@[q as int]@);
        if lex_less(key.as_str(), kq.as_str()) {
            return q;
        }
        assert(rest.drop_first() =~= s.subrange(q + 1, n as int));
        q = q + 1;
    }
    q
}

/// Sorts the entries by lowercase name, keeping the given order among equal
/// keys.
pub fn sort_by_lowercase_name(entries: Vec<Desktop>) -> (r: Vec<Desktop>)
    ensures
        views(r@) == sort_by_lower(views(entries@)),
        sorted_by_lower(views(r@)),
        views(r@).to_multiset() == views(entries@).to_multiset(),
{
    let ghost all = views(entries@);
    let n = entries.len();
    let mut rest = entries;
    let mut out: Vec<Desktop> = Vec::new();
    let mut taken: usize = 0;
    assert(all.subrange(0, 0) =~= Seq::<DesktopView>::empty());
    assert(views(out@) =~= Seq::<DesktopView>::empty());
    while taken < n
        invariant
            n == all.len(),
            taken <= n,
            views(rest@) == all.subrange(taken as int, n as int),
            views(out@) == sort_by_lower(all.subrange(0, taken as int)),
        decreases n - taken,
    {
        let ghost old_rest = rest@;
        assert(views(old_rest).len() == old_rest.len());
        assert(views(old_rest)[0] == old_rest[0]@);
        let e = rest.remove(0);
        assert(rest@ =~= old_rest.subrange(1, old_rest.len() as int));
        assert(views(rest@) =~= all.subrange(taken + 1, n as int)) by {
            assert forall|i: int| 0 <= i < rest@.len() implies views(rest@)[i] == all[taken + 1 + i] by {
                assert(views(old_rest)[i + 1] == old_rest[i + 1]@);
            }
        }
        let ghost prefix = all.subrange(0, taken + 1);
        assert(prefix.drop_last() =~= all.subrange(0, taken as int));
        assert(prefix.last() == e@);
        let key = lowercase(e.name.as_str());
        let p = insert_position(&out, &key);
        proof {
            lemma_first_after(views(out@), key@);
        }
        let ghost before = out@;
        out.insert(p, e);
        assert(views(out@) =~= views(before).insert(p as int, e@));
        taken = taken + 1;
    }
    assert(all.subrange(0, n as int) =~= all);
    proof {
        sort_orders_by_lowercase_name(all);
    }
    out
}

} // verus!
