//! One run of the listing: the command line, the steps from descriptors to
//! sorted entries, and the text form of the result.
use crate::command::{cleanup_exec, strip_field_codes, terminal_prefix_survives_cleanup};
use crate::entry::{
    byte_views, desktop_key, file_desktop, files_desktops, flag_set, parse_desktop_files,
    parsed_values, terminal_prefix, Desktop, DesktopView,
};
use crate::listing::{
    dedup_by_name, dedup_keeps_last_of_each_name, dedup_names, filter, kept_by_score, name_pos,
    name_pos_is_last, name_scores, views,
};
use crate::order::{sort_by_lower, sort_by_lowercase_name, sort_orders_by_lowercase_name};
use crate::paths::{opt_str, str_views};
use vstd::prelude::*;
use vstd::seq_lib::*;

verus! {

/// What the command line asks for.
pub struct Invocation {
    /// Print the listing as JSON rather than as text lines.
    pub json: bool,
    /// The query to filter names by, given as the one positional argument.
    pub query: Option<String>,
}

/// The flag that asks for JSON output.
pub open spec fn json_flag() -> Seq<char> {
    "--json"@
}

/// The first index of `x` in `s`, or -1.
pub open spec fn first_index(s: Seq<Seq<char>>, x: Seq<char>) -> int
    decreases s.len(),
{
    if s.len() == 0 {
        -1
    } else if s[0] == x {
        0
    } else {
        let r = first_index(s.drop_first(), x);
        if r < 0 {
            -1
        } else {
            r + 1
        }
    }
}

/// The arguments without their first `--json`.
pub open spec fn positional(args: Seq<Seq<char>>) -> Seq<Seq<char>> {
    let p = first_index(args, json_flag());
    if p >= 0 {
        args.remove(p)
    } else {
        args
    }
}

/// The query: the one positional argument after the program's name, where
/// there is exactly one.
pub open spec fn query_of(args: Seq<Seq<char>>) -> Option<Seq<char>> {
    let rest = positional(args);
    if rest.len() == 2 {
        Some(rest[1])
    } else {
        None
    }
}

proof fn lemma_first_index(s: Seq<Seq<char>>, x: Seq<char>, i: int)
    requires
        0 <= i <= s.len(),
        forall|k: int| 0 <= k < i ==> s[k] != x,
    ensures
        i < s.len() && s[i] == x ==> first_index(s, x) == i,
        i == s.len() ==> first_index(s, x) == -1,
    decreases i,
{
    if i > 0 {
        let t = s.drop_first();
        assert forall|k: int| 0 <= k < i - 1 implies t[k] != x by {
            assert(t[k] == s[k + 1]);
        }
        lemma_first_index(t, x, i - 1);
    }
}

/// Reads the command line (the program's name first): `--json` may stand
/// anywhere, and a query is taken only where exactly one other argument is
/// left.
pub fn parse_args(args: Vec<String>) -> (r: Invocation)
    ensures
        r.json == (first_index(str_views(args@), json_flag()) >= 0),
        opt_str(r.query) == query_of(str_views(args@)),
{
    let ghost a = str_views(args@);
    let flag = String::from_str("--json");
    let mut args = args;
    let n = args.len();
    assert(a.len() == n);
    let mut pos: usize = n;
    let mut i: usize = 0;
    while i < n
        invariant
            a == str_views(args@),
            n == args@.len(),
            a.len() == n,
            flag@ == json_flag(),
            i <= n,
            pos <= n,
            pos == n ==> forall|k: int| 0 <= k < i ==> a[k] != json_flag(),
            pos < n ==> pos < i && a[pos as int] == json_flag() && forall|k: int|
                0 <= k < pos ==> a[k] != json_flag(),
        decreases n - i,
    {
        assert(a[i as int] == args@[i as int]@);
        if pos == n && args[i] == flag {
            pos = i;
        }
        i = i + 1;
    }
    proof {
        lemma_first_index(a, json_flag(), pos as int);
    }
    let json = pos < n;
    if json {
        args.remove(pos);
        assert(str_views(args@) =~= a.remove(pos as int));
    }
    let query = if args.len() == 2 {
        assert(str_views(args@)[1] == args@[1]@);
        Some(args[1].clone())
    } else {
        None
    };
    Invocation { json, query }
}

/// The entry with the field codes removed from its command.
pub open spec fn clean_view(d: DesktopView) -> DesktopView {
    DesktopView {
        name: d.name,
        categories: d.categories,
        command: strip_field_codes(d.command),
        icon: d.icon,
    }
}

pub open spec fn cleaned(es: Seq<DesktopView>) -> Seq<DesktopView> {
    es.map_values(|d: DesktopView| clean_view(d))
}

/// Removes the field codes from every entry's command.
pub fn clean_commands(entries: Vec<Desktop>) -> (r: Vec<Desktop>)
    ensures
        views(r@) == cleaned(views(entries@)),
{
    let ghost all = views(entries@);
    let n = entries.len();
    let mut rest = entries;
    let mut out: Vec<Desktop> = Vec::new();
    let mut taken: usize = 0;
    while taken < n
        invariant
            n == all.len(),
            taken <= n,
            views(rest@) == all.subrange(taken as int, n as int),
            views(out@) =~= cleaned(all).subrange(0, taken as int),
        decreases n - taken,
    {
        let ghost old_rest = rest@;
        assert(views(old_rest).len() == old_rest.len());
        assert(views(old_rest)[0] == old_rest[0]@);
        let e = rest.remove(0);
        assert(rest@ =~= old_rest.subrange(1, old_rest.len() as int));
        assert(views(rest@) =~= all.subrange(taken + 1, n as int)) by {
            assert forall|i: int| 0 <= i < rest@.len() implies views(rest@)[i] == all[taken + 1 + i] by {
                assert(views(old_rest)[i + 1] == old_rest[i + 1]@);
            }
        }
        let Desktop { name, categories, command, icon } = e;
        let d = Desktop { name, categories, command: cleanup_exec(command), icon };
        let ghost before = out@;
        out.push(d);
        assert(views(out@) =~= views(before).push(d@));
        taken = taken + 1;
    }
    out
}

/// The entries kept by the query, or all of them without one.
pub open spec fn filtered(es: Seq<DesktopView>, query: Option<Seq<char>>) -> Seq<DesktopView> {
    match query {
        Some(t) => kept_by_score(es, name_scores(es, t)),
        None => es,
    }
}

/// The listing made of the entries read, in the order read: commands
/// cleaned, one entry per name (the last), filtered by the query, sorted by
/// lowercase name.
pub open spec fn listing(es: Seq<DesktopView>, query: Option<Seq<char>>) -> Seq<DesktopView> {
    sort_by_lower(filtered(dedup_names(cleaned(es)), query))
}

/// Builds the listing out of the entries read (see [`listing`]).
pub fn build_listing(entries: Vec<Desktop>, query: Option<String>) -> (r: Vec<Desktop>)
    ensures
        views(r@) == listing(views(entries@), opt_str(query)),
{
    let cleaned_entries = clean_commands(entries);
    let unique = dedup_by_name(cleaned_entries);
    let kept = match query {
        Some(t) => filter(unique, t.as_str()),
        None => unique,
    };
    sort_by_lowercase_name(kept)
}

/// Builds the listing out of the descriptors' bytes, in the order found (see
/// [`files_desktops`] and [`listing`]).
pub fn list_entries(files: Vec<Vec<u8>>, query: Option<String>) -> (r: Vec<Desktop>)
    ensures
        views(r@) == listing(files_desktops(byte_views(files@)), opt_str(query)),
{
    let entries = parse_desktop_files(files);
    assert(views(entries@) == entries@.map_values(|d: Desktop| d@));
    build_listing(entries, query)
}

/// The text line of an entry: name, categories and command, separated by tabs.
pub open spec fn text_line(d: DesktopView) -> Seq<char> {
    d.name + "\t"@ + d.categories + "\t"@ + d.command
}

/// The text line of an entry (see [`text_line`]).
pub fn render_line(d: &Desktop) -> (r: String)
    ensures
        r@ == text_line(d@),
{
    let mut line = d.name.clone();
    line.append("\t");
    line.append(d.categories.as_str());
    line.append("\t");
    line.append(d.command.as_str());
    line
}

/// The text lines of the listing, one per entry, in its order.
pub fn render_text(entries: &Vec<Desktop>) -> (r: Vec<String>)
    ensures
        str_views(r@) == views(entries@).map_values(|d: DesktopView| text_line(d)),
{
    let mut out: Vec<String> = Vec::new();
    let mut i: usize = 0;
    while i < entries.len()
        invariant
            i <= entries@.len(),
            str_views(out@) =~= views(entries@).map_values(|d: DesktopView| text_line(d)).subrange(
                0,
                i as int,
            ),
        decreases entries@.len() - i,
    {
        let line = render_line(&entries[i]);
        let ghost before = out@;
        out.push(line);
        assert(str_views(out@) =~= str_views(before).push(line@));
        i = i + 1;
    }
    out
}

/// A descriptor whose `NoDisplay` is exactly `true` yields no entry, whatever
/// its other fields.
pub proof fn hidden_descriptor_yields_nothing(bytes: Seq<u8>)
    requires
        parsed_values(bytes) is Some,
        flag_set(desktop_key(parsed_values(bytes)->0, "NoDisplay"@)),
    ensures
        file_desktop(bytes) is None,
{
}

/// The entry of a descriptor whose `Terminal` is exactly `true` is listed with
/// the terminal command, one space, and then its own `Exec` value with the
/// field codes removed.
pub proof fn terminal_entry_is_prefixed(bytes: Seq<u8>)
    requires
        file_desktop(bytes) is Some,
        flag_set(desktop_key(parsed_values(bytes)->0, "Terminal"@)),
    ensures
        clean_view(file_desktop(bytes)->0).command == terminal_prefix() + seq![' ']
            + strip_field_codes(desktop_key(parsed_values(bytes)->0, "Exec"@)->0),
{
    terminal_prefix_survives_cleanup(desktop_key(parsed_values(bytes)->0, "Exec"@)->0);
}

/// Without a query the listing holds, for each name read, exactly one entry:
/// the last one read with that name, with its command cleaned.
pub proof fn listing_keeps_last_of_each_name(es: Seq<DesktopView>)
    ensures
        forall|i: int, j: int|
            0 <= i < j < listing(es, None).len() ==> (#[trigger] listing(es, None)[i]).name != (
            #[trigger] listing(es, None)[j]).name,
        forall|k: int|
            0 <= k < es.len() ==> listing(es, None).contains(
                cleaned(es)[name_pos(cleaned(es), (#[trigger] es[k]).name)],
            ),
        forall|i: int|
            0 <= i < listing(es, None).len() ==> name_pos(
                cleaned(es),
                (#[trigger] listing(es, None)[i]).name,
            ) >= 0 && listing(es, None)[i] == cleaned(es)[name_pos(
                cleaned(es),
                listing(es, None)[i].name,
            )],
{
    broadcast use group_to_multiset_ensures;
    let c = cleaned(es);
    let d = dedup_names(c);
    let l = listing(es, None);
    dedup_keeps_last_of_each_name(c);
    sort_orders_by_lowercase_name(d);
    assert(l == sort_by_lower(d));
    assert(d.no_duplicates()) by {
        assert forall|i: int, j: int| 0 <= i < d.len() && 0 <= j < d.len() && i != j implies d[i]
            != d[j] by {
            if i < j {
                assert(d[i].name != d[j].name);
            } else {
                assert(d[j].name != d[i].name);
            }
        }
    }
    d.lemma_multiset_has_no_duplicates();
    assert forall|x: DesktopView| l.to_multiset().contains(x) implies l.to_multiset().count(x)
        == 1 by {
        assert(d.to_multiset().contains(x));
    }
    l.lemma_multiset_has_no_duplicates_conv();
    assert forall|i: int, j: int| 0 <= i < j < l.len() implies (#[trigger] l[i]).name != (
    #[trigger] l[j]).name by {
        assert(l.to_multiset().count(l[i]) > 0 && l.to_multiset().count(l[j]) > 0);
        assert(d.contains(l[i]) && d.contains(l[j]));
        let a = choose|a: int| 0 <= a < d.len() && d[a] == l[i];
        let b = choose|b: int| 0 <= b < d.len() && d[b] == l[j];
        if l[i].name == l[j].name {
            if a < b {
                assert(d[a].name != d[b].name);
            } else if b < a {
                assert(d[b].name != d[a].name);
            }
            assert(l[i] != l[j]);
        }
    }
    assert forall|k: int| 0 <= k < es.len() implies l.contains(
        c[name_pos(c, (#[trigger] es[k]).name)],
    ) by {
        assert(c[k].name == es[k].name);
        assert(name_pos(d, c[k].name) >= 0);
        name_pos_is_last(d, c[k].name);
        let q = name_pos(d, c[k].name);
        assert(d[q] == c[name_pos(c, d[q].name)]);
        assert(d.to_multiset().count(d[q]) > 0);
        assert(l.to_multiset().count(d[q]) > 0);
    }
    assert forall|i: int| 0 <= i < l.len() implies name_pos(c, (#[trigger] l[i]).name) >= 0
        && l[i] == c[name_pos(c, l[i].name)] by {
        assert(l.to_multiset().count(l[i]) > 0);
        assert(d.contains(l[i]));
        let a = choose|a: int| 0 <= a < d.len() && d[a] == l[i];
        assert(name_pos(c, d[a].name) >= 0);
    }
}

/// Two runs over the same entries, read in the same order, with the same
/// query give the same text.
pub proof fn listing_is_reproducible(
    first: Seq<DesktopView>,
    second: Seq<DesktopView>,
    query: Option<Seq<char>>,
)
    requires
        first == second,
    ensures
        listing(first, query).map_values(|d: DesktopView| text_line(d)) == listing(
            second,
            query,
        ).map_values(|d: DesktopView| text_line(d)),
{
}

proof fn lemma_kept_within(es: Seq<DesktopView>, scores: Seq<Option<i64>>)
    requires
        scores.len() >= es.len(),
    ensures
        forall|x: DesktopView| #[trigger] kept_by_score(es, scores).contains(x) ==> es.contains(x),
    decreases es.len(),
{
    if es.len() > 0 {
        let init = es.drop_last();
        lemma_kept_within(init, scores);
        assert forall|x: DesktopView| #[trigger] kept_by_score(es, scores).contains(x) implies es.contains(x) by {
            let k = kept_by_score(es, scores);
            let i = choose|i: int| 0 <= i < k.len() && k[i] == x;
            if kept_by_score(init, scores).contains(x) {
                let j = choose|j: int| 0 <= j < init.len() && init[j] == x;
                assert(es[j] == x);
            } else {
                assert(es[es.len() - 1] == x);
            }
        }
    }
}

/// Every entry listed for a query is also listed without one.
pub proof fn filtering_keeps_a_subset(es: Seq<DesktopView>, term: Seq<char>)
    ensures
        forall|x: DesktopView| #[trigger]
            listing(es, Some(term)).contains(x) ==> listing(es, None).contains(x),
{
    broadcast use group_to_multiset_ensures;
    let u = dedup_names(cleaned(es));
    let f = filtered(u, Some(term));
    lemma_kept_within(u, name_scores(u, term));
    sort_orders_by_lowercase_name(f);
    sort_orders_by_lowercase_name(u);
    assert forall|x: DesktopView| #[trigger] listing(es, Some(term)).contains(x) implies listing(
        es,
        None,
    ).contains(x) by {
        assert(sort_by_lower(f).to_multiset().count(x) > 0);
        assert(f.contains(x));
        assert(u.contains(x));
        assert(u.to_multiset().count(x) > 0);
        assert(sort_by_lower(u).to_multiset().count(x) > 0);
    }
}

} // verus!
