//! Where descriptors are looked for, and which files are descriptors.
use vstd::prelude::*;
use vstd::string::*;

verus! {

/// The pieces of `s` between colons, left to right; an empty text is one
/// empty piece.
pub open spec fn split_colon(s: Seq<char>) -> Seq<Seq<char>>
    decreases s.len(),
{
    if s.len() == 0 {
        seq![Seq::empty()]
    } else {
        let prev = split_colon(s.drop_last());
        if s.last() == ':' {
            prev.push(Seq::empty())
        } else {
            prev.update(prev.len() - 1, prev.last().push(s.last()))
        }
    }
}

proof fn lemma_split_colon_len(s: Seq<char>)
    ensures
        split_colon(s).len() >= 1,
    decreases s.len(),
{
    if s.len() > 0 {
        lemma_split_colon_len(s.drop_last());
    }
}

pub open spec fn str_views(v: Seq<String>) -> Seq<Seq<char>> {
    v.map_values(|s: String| s@)
}

/// Splits a colon-separated list of directories (see [`split_colon`]).
pub fn split_on_colons(s: &str) -> (r: Vec<String>)
    ensures
        str_views(r@) == split_colon(s@),
{
    let n = s.unicode_len();
    let mut done: Vec<String> = Vec::new();
    let mut start: usize = 0;
    let mut i: usize = 0;
    assert(s@.subrange(0, 0) =~= Seq::<char>::empty());
    assert(split_colon(Seq::<char>::empty()) =~= str_views(done@).push(s@.subrange(0, 0)));
    while i < n
        invariant
            n == s@.len(),
            start <= i <= n,
            split_colon(s@.subrange(0, i as int)) == str_views(done@).push(
                s@.subrange(start as int, i as int),
            ),
        decreases n - i,
    {
        let c = s.get_char(i);
        let ghost pre = s@.subrange(0, i + 1);
        assert(pre.drop_last() =~= s@.subrange(0, i as int));
        assert(pre.last() == c);
        proof {
            lemma_split_colon_len(s@.subrange(0, i as int));
        }
        if c == ':' {
            let piece = String::from_str(s.substring_char(start, i));
            let ghost before = done@;
            done.push(piece);
            assert(str_views(done@) =~= str_views(before).push(s@.subrange(start as int, i as int)));
            start = i + 1;
            assert(s@.subrange(start as int, i + 1) =~= Seq::<char>::empty());
        } else {
            assert(s@.subrange(start as int, i as int).push(c) =~= s@.subrange(start as int, i + 1));
            assert(str_views(done@).push(s@.subrange(start as int, i as int)).update(
                str_views(done@).len() as int,
                s@.subrange(start as int, i + 1),
            ) =~= str_views(done@).push(s@.subrange(start as int, i + 1)));
        }
        i = i + 1;
    }
    let piece = String::from_str(s.substring_char(start, n));
    let ghost before = done@;
    done.push(piece);
    assert(str_views(done@) =~= str_views(before).push(s@.subrange(start as int, n as int)));
    assert(s@.subrange(0, n as int) =~= s@);
    done
}

/// The search list used where none is configured.
pub open spec fn default_search_path() -> Seq<char> {
    "/usr/share"@
}

/// The base directories: those of the search list, then the user's data
/// directory, which defaults to `<home>/.local/share`; none where neither the
/// data directory nor the home directory is known.
pub open spec fn data_bases(
    search_path: Option<Seq<char>>,
    data_home: Option<Seq<char>>,
    home: Option<Seq<char>>,
) -> Option<Seq<Seq<char>>> {
    let search = split_colon(
        match search_path {
            Some(p) => p,
            None => default_search_path(),
        },
    );
    match data_home {
        Some(h) => Some(search.push(h)),
        None => match home {
            Some(h) => Some(search.push(h + "/.local/share"@)),
            None => None,
        },
    }
}

/// `base/sub`.
pub open spec fn joined(base: Seq<char>, sub: Seq<char>) -> Seq<char> {
    base + "/"@ + sub
}

/// Each base directory joined with `sub`.
pub open spec fn data_paths(
    sub: Seq<char>,
    search_path: Option<Seq<char>>,
    data_home: Option<Seq<char>>,
    home: Option<Seq<char>>,
) -> Option<Seq<Seq<char>>> {
    match data_bases(search_path, data_home, home) {
        Some(b) => Some(b.map_values(|d: Seq<char>| joined(d, sub))),
        None => None,
    }
}

pub open spec fn opt_str(o: Option<String>) -> Option<Seq<char>> {
    match o {
        Some(s) => Some(s@),
        None => None,
    }
}

pub open spec fn opt_paths(o: Option<Vec<String>>) -> Option<Seq<Seq<char>>> {
    match o {
        Some(v) => Some(str_views(v@)),
        None => None,
    }
}

/// The directories to look in for `path`, given the configured search list,
/// user data directory and home directory (see [`data_paths`]).
pub fn find_data_dirs(
    path: &str,
    search_path: Option<String>,
    data_home: Option<String>,
    home: Option<String>,
) -> (r: Option<Vec<String>>)
    ensures
        opt_paths(r) == data_paths(path@, opt_str(search_path), opt_str(data_home), opt_str(home)),
{
    let ghost sp = opt_str(search_path);
    let ghost dh = opt_str(data_home);
    let ghost hm = opt_str(home);
    let user_dir = match data_home {
        Some(h) => h,
        None => match home {
            Some(h) => {
                let mut d = h;
                d.append("/.local/share");
                d
            },
            None => {
                return None;
            },
        },
    };
    let search = match search_path {
        Some(p) => p,
        None => String::from_str("/usr/share"),
    };
    let mut bases = split_on_colons(search.as_str());
    let ghost before = bases@;
    bases.push(user_dir);
    let ghost b = data_bases(sp, dh, hm)->0;
    assert(str_views(bases@) =~= str_views(before).push(user_dir@));
    assert(str_views(bases@) == b);
    let mut out: Vec<String> = Vec::new();
    let mut i: usize = 0;
    while i < bases.len()
        invariant
            i <= bases@.len(),
            str_views(bases@) == b,
            str_views(out@) =~= b.map_values(|d: Seq<char>| joined(d, path@)).subrange(0, i as int),
        decreases bases@.len() - i,
    {
        let mut full = bases[i].clone();
        full.append("/");
        full.append(path);
        assert(str_views(bases@)[i as int] == bases@[i as int]@);
        assert(full@ == joined(b[i as int], path@));
        let ghost prev = out@;
        out.push(full);
        assert(str_views(out@) =~= str_views(prev).push(full@));
        assert(b.map_values(|d: Seq<char>| joined(d, path@)).subrange(0, i + 1) =~= b.map_values(
            |d: Seq<char>| joined(d, path@),
        ).subrange(0, i as int).push(joined(b[i as int], path@)));
        i = i + 1;
    }
    assert(b.map_values(|d: Seq<char>| joined(d, path@)).subrange(0, i as int) =~= b.map_values(
        |d: Seq<char>| joined(d, path@),
    ));
    Some(out)
}

/// The suffix of a descriptor's file name.
pub open spec fn desktop_suffix() -> Seq<char> {
    seq!['.', 'd', 'e', 's', 'k', 't', 'o', 'p']
}

/// The file name has the extension `desktop`: it ends in `.desktop`, with
/// something before (a name that starts with its only dot has no extension).
pub open spec fn is_desktop_name(name: Seq<char>) -> bool {
    name.len() > 8 && name.subrange(name.len() - 8, name.len() as int) == desktop_suffix()
}

/// Whether a file of this name is a descriptor (see [`is_desktop_name`]).
pub fn is_desktop_file(file_name: &str) -> (r: bool)
    ensures
        r == is_desktop_name(file_name@),
{
    let n = file_name.unicode_len();
    if n <= 8 {
        return false;
    }
    let tail = String::from_str(file_name.substring_char(n - 8, n));
    let suffix = String::from_str(".desktop");
    proof {
        reveal_strlit(".desktop");
        assert(".desktop"@ =~= desktop_suffix());
    }
    tail == suffix
}

} // verus!
