//! Deduplication by name and fuzzy filtering of launcher entries.
use crate::entry::{Desktop, DesktopView};
use fuzzy_matcher::skim::SkimMatcherV2;
use vstd::prelude::*;

verus! {

pub open spec fn views(s: Seq<Desktop>) -> Seq<DesktopView> {
    s.map_values(|d: Desktop| d@)
}

/// The index of the last entry of `s` named `name`, or -1 where none is.
pub open spec fn name_pos(s: Seq<DesktopView>, name: Seq<char>) -> int
    decreases s.len(),
{
    if s.len() == 0 {
        -1
    } else if s.last().name == name {
        s.len() - 1
    } else {
        name_pos(s.drop_last(), name)
    }
}

/// `e` put in the place of the entry of the same name, or at the end where
/// `s` has none of that name.
pub open spec fn insert_named(s: Seq<DesktopView>, e: DesktopView) -> Seq<DesktopView> {
    let p = name_pos(s, e.name);
    if p >= 0 {
        s.update(p, e)
    } else {
        s.push(e)
    }
}

/// The entries keyed by name, each later entry replacing an earlier one of the
/// same name; names stand in the order in which they first came.
pub open spec fn dedup_names(es: Seq<DesktopView>) -> Seq<DesktopView>
    decreases es.len(),
{
    if es.len() == 0 {
        Seq::empty()
    } else {
        insert_named(dedup_names(es.drop_last()), es.last())
    }
}

/// `name_pos` is the last index holding the name, or -1 where none does.
pub proof fn name_pos_is_last(s: Seq<DesktopView>, name: Seq<char>)
    ensures
        -1 <= name_pos(s, name) < s.len(),
        name_pos(s, name) >= 0 ==> s[name_pos(s, name)].name == name,
        forall|q: int| name_pos(s, name) < q < s.len() ==> (#[trigger] s[q]).name != name,
    decreases s.len(),
{
    if s.len() > 0 && s.last().name != name {
        name_pos_is_last(s.drop_last(), name);
        assert forall|q: int| name_pos(s, name) < q < s.len() implies (#[trigger] s[q]).name != name by {
            if q < s.len() - 1 {
                assert(s[q] == s.drop_last()[q]);
            }
        }
    }
}

/// After deduplication every name stands once; every name given stands; and
/// each entry that stands is the last one given with its name.
pub proof fn dedup_keeps_last_of_each_name(es: Seq<DesktopView>)
    ensures
        forall|i: int, j: int|
            0 <= i < j < dedup_names(es).len() ==> (#[trigger] dedup_names(es)[i]).name != (
            #[trigger] dedup_names(es)[j]).name,
        forall|k: int| 0 <= k < es.len() ==> name_pos(dedup_names(es), (#[trigger] es[k]).name) >= 0,
        forall|i: int|
            0 <= i < dedup_names(es).len() ==> name_pos(es, (#[trigger] dedup_names(es)[i]).name)
                >= 0 && es[name_pos(es, dedup_names(es)[i].name)] == dedup_names(es)[i],
    decreases es.len(),
{
    if es.len() > 0 {
        let init = es.drop_last();
        let e = es.last();
        let r = dedup_names(init);
        dedup_keeps_last_of_each_name(init);
        name_pos_is_last(r, e.name);
        let p = name_pos(r, e.name);
        let t = dedup_names(es);
        assert(t == insert_named(r, e));
        assert(forall|i: int| 0 <= i < r.len() ==> (#[trigger] t[i]).name == r[i].name);
        assert(t.len() >= r.len());
        // the names that stand are those of r, and the name of e
        assert forall|k: int| 0 <= k < es.len() implies name_pos(t, (#[trigger] es[k]).name) >= 0 by {
            name_pos_is_last(t, es[k].name);
            if k < es.len() - 1 {
                assert(es[k] == init[k]);
                name_pos_is_last(r, init[k].name);
                let q = name_pos(r, init[k].name);
                assert(t[q].name == es[k].name);
            } else {
                let q = if p >= 0 { p } else { r.len() as int };
                assert(t[q] == e);
            }
        }
        assert forall|i: int, j: int| 0 <= i < j < t.len() implies (#[trigger] t[i]).name != (
        #[trigger] t[j]).name by {
            if p < 0 && j == r.len() {
                assert(t[j] == e);
                assert(r[i].name != e.name);
            } else {
                assert(r[i].name != r[j].name);
            }
        }
        assert forall|i: int| 0 <= i < t.len() implies name_pos(es, (#[trigger] t[i]).name) >= 0
            && es[name_pos(es, t[i].name)] == t[i] by {
            if t[i] == e || (p >= 0 && i == p) || (p < 0 && i == r.len()) {
                if !(t[i] == e) {
                    assert(t[i] == e);
                }
                assert(name_pos(es, e.name) == es.len() - 1);
            } else {
                assert(t[i] == r[i]);
                if r[i].name == e.name {
                    assert(i != p);
                    assert(false);
                }
                assert(name_pos(init, dedup_names(init)[i].name) >= 0);
                name_pos_is_last(init, r[i].name);
                assert(name_pos(es, r[i].name) == name_pos(init, r[i].name));
                assert(es[name_pos(init, r[i].name)] == init[name_pos(init, r[i].name)]);
            }
        }
    }
}

fn position_of_name(out: &Vec<Desktop>, name: &String) -> (r: Option<usize>)
    ensures
        match r {
            Some(p) => p as int == name_pos(views(out@), name@) && p < out@.len(),
            None => name_pos(views(out@), name@) == -1,
        },
{
    let mut j: usize = out.len();
    assert(views(out@).subrange(0, j as int) =~= views(out@));
    while j > 0
        invariant
            j <= out@.len(),
            name_pos(views(out@), name@) == name_pos(views(out@).subrange(0, j as int), name@),
        decreases j,
    {
        let ghost sub = views(out@).subrange(0, j as int);
        assert(sub.last() == out@[j - 1]@);
        if out[j - 1].name == *name {
            return Some(j - 1);
        }
        assert(sub.drop_last() =~= views(out@).subrange(0, j - 1));
        j = j - 1;
    }
    None
}

/// Keeps one entry per name: the last one given with that name.
pub fn dedup_by_name(entries: Vec<Desktop>) -> (r: Vec<Desktop>)
    ensures
        views(r@) == dedup_names(views(entries@)),
{
    let ghost all = views(entries@);
    let n = entries.len();
    let mut rest = entries;
    let mut out: Vec<Desktop> = Vec::new();
    let mut taken: usize = 0;
    assert(all.subrange(0, 0) =~= Seq::<DesktopView>::empty());
    assert(views(out@) =~= Seq::<DesktopView>::empty());
    while taken < n
        invariant
            n == all.len(),
            taken <= n,
            views(rest@) == all.subrange(taken as int, n as int),
            views(out@) == dedup_names(all.subrange(0, taken as int)),
        decreases n - taken,
    {
        let ghost old_rest = rest@;
        assert(views(old_rest).len() == old_rest.len());
        assert(views(old_rest)[0] == old_rest[0]@);
        let e = rest.remove(0);
        assert(rest@ =~= old_rest.subrange(1, old_rest.len() as int));
        assert(views(rest@) =~= all.subrange(taken + 1, n as int)) by {
            assert forall|i: int| 0 <= i < rest@.len() implies views(rest@)[i] == all[taken + 1 + i] by {
                assert(views(old_rest)[i + 1] == old_rest[i + 1]@);
            }
        }
        let ghost prefix = all.subrange(0, taken + 1);
        assert(prefix.drop_last() =~= all.subrange(0, taken as int));
        assert(prefix.last() == e@);
        match position_of_name(&out, &e.name) {
            Some(p) => {
                let ghost before = out@;
                out.set(p, e);
                assert(views(out@) =~= views(before).update(p as int, e@));
            },
            None => {
                let ghost before = out@;
                out.push(e);
                assert(views(out@) =~= views(before).push(e@));
            },
        }
        taken = taken + 1;
    }
    assert(all.subrange(0, n as int) =~= all);
    out
}

/// What the skim matcher of fuzzy_matcher scores `pattern` against `choice`.
pub uninterp spec fn skim_score(choice: Seq<char>, pattern: Seq<char>) -> Option<i64>;

/// Relies on fuzzy_matcher's `SkimMatcherV2::fuzzy`, with the default matcher
/// and no positions: the score of `pattern` against `choice`, none where it
/// does not match; an empty pattern scores 0.
#[verifier::external_body]
fn fuzzy_score(choice: &str, pattern: &str) -> (r: Option<i64>)
    ensures
        r == skim_score(choice@, pattern@),
        pattern@.len() == 0 ==> r == Some(0i64),
{
    SkimMatcherV2::default().fuzzy(choice, pattern, false).map(|m| m.0)
}

/// The entries whose score is present, in their order.
pub open spec fn kept_by_score(es: Seq<DesktopView>, scores: Seq<Option<i64>>) -> Seq<DesktopView>
    decreases es.len(),
{
    if es.len() == 0 {
        Seq::empty()
    } else if scores[es.len() - 1] is Some {
        kept_by_score(es.drop_last(), scores).push(es.last())
    } else {
        kept_by_score(es.drop_last(), scores)
    }
}

/// The scores of each entry's name against `term`.
pub open spec fn name_scores(es: Seq<DesktopView>, term: Seq<char>) -> Seq<Option<i64>> {
    Seq::new(es.len(), |i: int| skim_score(es[i].name, term))
}

/// Keeps the entries whose score is present (`scores[i]` belongs to
/// `entries[i]`), in their order; the scores do not reorder them.
pub fn keep_matching(entries: Vec<Desktop>, scores: Vec<Option<i64>>) -> (r: Vec<Desktop>)
    requires
        scores@.len() == entries@.len(),
    ensures
        views(r@) == kept_by_score(views(entries@), scores@),
{
    let ghost all = views(entries@);
    let n = entries.len();
    let mut rest = entries;
    let mut out: Vec<Desktop> = Vec::new();
    let mut taken: usize = 0;
    assert(all.subrange(0, 0) =~= Seq::<DesktopView>::empty());
    assert(views(out@) =~= Seq::<DesktopView>::empty());
    while taken < n
        invariant
            n == all.len(),
            scores@.len() == n,
            taken <= n,
            views(rest@) == all.subrange(taken as int, n as int),
            views(out@) == kept_by_score(all.subrange(0, taken as int), scores@),
        decreases n - taken,
    {
        let ghost old_rest = rest@;
        assert(views(old_rest).len() == old_rest.len());
        assert(views(old_rest)[0] == old_rest[0]@);
        let e = rest.remove(0);
        assert(rest@ =~= old_rest.subrange(1, old_rest.len() as int));
        assert(views(rest@) =~= all.subrange(taken + 1, n as int)) by {
            assert forall|i: int| 0 <= i < rest@.len() implies views(rest@)[i] == all[taken + 1 + i] by {
                assert(views(old_rest)[i + 1] == old_rest[i + 1]@);
            }
        }
        let ghost prefix = all.subrange(0, taken + 1);
        assert(prefix.drop_last() =~= all.subrange(0, taken as int));
        assert(prefix.last() == e@);
        if scores[taken].is_some() {
            let ghost before = out@;
            out.push(e);
            assert(views(out@) =~= views(before).push(e@));
        }
        taken = taken + 1;
    }
    assert(all.subrange(0, n as int) =~= all);
    out
}

/// Keeps the entries whose name fuzzy-matches `term`, in their order.
pub fn filter(input: Vec<Desktop>, term: &str) -> (r: Vec<Desktop>)
    ensures
        views(r@) == kept_by_score(views(input@), name_scores(views(input@), term@)),
{
    let mut scores: Vec<Option<i64>> = Vec::new();
    let mut i: usize = 0;
    while i < input.len()
        invariant
            i <= input@.len(),
            scores@ =~= name_scores(views(input@), term@).subrange(0, i as int),
        decreases input@.len() - i,
    {
        scores.push(fuzzy_score(input[i].name.as_str(), term));
        i = i + 1;
    }
    assert(scores@ =~= name_scores(views(input@), term@));
    keep_matching(input, scores)
}

} // verus!
