//! The launcher entry and how one is read out of a descriptor's fields.
use crate::paths::opt_str;
use freedesktop_entry_parser::Entry;
use vstd::prelude::*;

verus! {

/// One launchable application, as it is shown to a launcher.
pub struct Desktop {
    pub name: String,
    pub categories: String,
    pub command: String,
    pub icon: String,
}

/// The mathematical value of a [`Desktop`].
pub struct DesktopView {
    pub name: Seq<char>,
    pub categories: Seq<char>,
    pub command: Seq<char>,
    pub icon: Seq<char>,
}

impl View for Desktop {
    type V = DesktopView;

    open spec fn view(&self) -> DesktopView {
        DesktopView {
            name: self.name@,
            categories: self.categories@,
            command: self.command@,
            icon: self.icon@,
        }
    }
}

/// The values that the `[Desktop Entry]` section of a descriptor gives for the
/// keys that matter here; `None` where the key is absent.
pub struct DesktopFields {
    pub name: Option<String>,
    pub command: Option<String>,
    pub categories: Option<String>,
    pub icon: Option<String>,
    pub no_display: Option<String>,
    pub terminal: Option<String>,
}

/// The command that runs a terminal emulator, put in front of the commands of
/// entries that ask for a terminal.
pub open spec fn terminal_prefix() -> Seq<char> {
    seq!['a', 'l', 'a', 'c', 'r', 'i', 't', 't', 'y', ' ', '-', 'e']
}

/// A flag holds only where its value is exactly the text `true`.
pub open spec fn flag_set(v: Option<Seq<char>>) -> bool {
    v == Some(seq!['t', 'r', 'u', 'e'])
}

/// The command as extracted: prefixed by the terminal command and one space
/// where the entry asks for a terminal.
pub open spec fn launched_command(cmd: Seq<char>, terminal: Option<Seq<char>>) -> Seq<char> {
    if flag_set(terminal) {
        terminal_prefix() + seq![' '] + cmd
    } else {
        cmd
    }
}

/// The entry that a descriptor with these field values yields: none without a
/// name or a command, none for a hidden one; absent optional fields are empty.
pub open spec fn desktop_of(
    name: Option<Seq<char>>,
    command: Option<Seq<char>>,
    categories: Option<Seq<char>>,
    icon: Option<Seq<char>>,
    no_display: Option<Seq<char>>,
    terminal: Option<Seq<char>>,
) -> Option<DesktopView> {
    if name is None || command is None || flag_set(no_display) {
        None
    } else {
        Some(
            DesktopView {
                name: name->0,
                categories: match categories {
                    Some(c) => c,
                    None => Seq::empty(),
                },
                command: launched_command(command->0, terminal),
                icon: match icon {
                    Some(i) => i,
                    None => Seq::empty(),
                },
            },
        )
    }
}

pub open spec fn fields_desktop(f: DesktopFields) -> Option<DesktopView> {
    desktop_of(
        opt_str(f.name),
        opt_str(f.command),
        opt_str(f.categories),
        opt_str(f.icon),
        opt_str(f.no_display),
        opt_str(f.terminal),
    )
}

pub open spec fn opt_desktop_view(o: Option<Desktop>) -> Option<DesktopView> {
    match o {
        Some(d) => Some(d@),
        None => None,
    }
}

fn is_true(v: &Option<String>) -> (r: bool)
    ensures
        r == flag_set(opt_str(*v)),
{
    match v {
        Some(s) => {
            let t = String::from_str("true");
            proof {
                reveal_strlit("true");
                assert("true"@ =~= seq!['t', 'r', 'u', 'e']);
            }
            *s == t
        },
        None => false,
    }
}

fn text_or_empty(v: Option<String>) -> (r: String)
    ensures
        r@ == match opt_str(v) {
            Some(s) => s,
            None => Seq::<char>::empty(),
        },
{
    match v {
        Some(s) => s,
        None => String::new(),
    }
}

/// Builds the entry out of a descriptor's field values (see [`desktop_of`]).
pub fn extract_desktop(fields: DesktopFields) -> (r: Option<Desktop>)
    ensures
        opt_desktop_view(r) == fields_desktop(fields),
{
    let ghost f = fields;
    let hidden = is_true(&fields.no_display);
    let in_terminal = is_true(&fields.terminal);
    let DesktopFields { name, command, categories, icon, no_display: _, terminal: _ } = fields;
    match (name, command) {
        (Some(name), Some(command)) => {
            if hidden {
                return None;
            }
            let command = if in_terminal {
                let mut line = String::from_str("alacritty -e");
                line.append(" ");
                line.append(command.as_str());
                proof {
                    reveal_strlit("alacritty -e");
                    reveal_strlit(" ");
                    assert("alacritty -e"@ =~= terminal_prefix());
                    assert(" "@ =~= seq![' ']);
                }
                line
            } else {
                command
            };
            let categories = text_or_empty(categories);
            let icon = text_or_empty(icon);
            let r = Desktop { name, categories, command, icon };
            assert(opt_desktop_view(Some(r)) == fields_desktop(f));
            Some(r)
        },
        _ => None,
    }
}

#[verifier::external_type_specification]
#[verifier::external_body]
pub struct ExEntry(freedesktop_entry_parser::Entry);

/// What a parsed descriptor holds: for a section name and a key, the value the
/// key has there without a locale parameter.
pub uninterp spec fn entry_values(e: freedesktop_entry_parser::Entry) -> Map<
    (Seq<char>, Seq<char>),
    Seq<char>,
>;

/// What `Entry::parse` makes of the bytes: the values of the descriptor they
/// hold (as [`entry_values`] gives them), or none where they do not parse.
pub uninterp spec fn parsed_values(bytes: Seq<u8>) -> Option<
    Map<(Seq<char>, Seq<char>), Seq<char>>,
>;

/// Relies on freedesktop_entry_parser's `Entry::parse`: the descriptor held
/// by the bytes, or nothing where they do not parse; which of the two depends
/// on the bytes alone.
#[verifier::external_body]
fn parse_descriptor(bytes: Vec<u8>) -> (r: Option<Entry>)
    ensures
        r is Some <==> parsed_values(bytes@) is Some,
        r is Some ==> entry_values(r->0) == parsed_values(bytes@)->0,
{
    Entry::parse(bytes).ok()
}

/// Relies on freedesktop_entry_parser's `Entry::section` and
/// `AttrSelector::attr`: the value of `key` in the section named `section`.
#[verifier::external_body]
fn section_attr(e: &Entry, section: &str, key: &str) -> (r: Option<String>)
    ensures
        opt_str(r) == lookup(entry_values(*e), section@, key@),
{
    e.section(section).attr(key).map(String::from)
}

pub open spec fn lookup(
    m: Map<(Seq<char>, Seq<char>), Seq<char>>,
    section: Seq<char>,
    key: Seq<char>,
) -> Option<Seq<char>> {
    if m.contains_key((section, key)) {
        Some(m[(section, key)])
    } else {
        None
    }
}

pub open spec fn desktop_key(m: Map<(Seq<char>, Seq<char>), Seq<char>>, key: Seq<char>) -> Option<
    Seq<char>,
> {
    lookup(m, "Desktop Entry"@, key)
}

/// The entry that a parsed descriptor yields, read from its `[Desktop Entry]`
/// section.
pub open spec fn entry_desktop(m: Map<(Seq<char>, Seq<char>), Seq<char>>) -> Option<DesktopView> {
    desktop_of(
        desktop_key(m, "Name"@),
        desktop_key(m, "Exec"@),
        desktop_key(m, "Categories"@),
        desktop_key(m, "Icon"@),
        desktop_key(m, "NoDisplay"@),
        desktop_key(m, "Terminal"@),
    )
}

/// Reads the entry out of a parsed descriptor.
pub fn extract_desktop_from_entry(entry: &Entry) -> (r: Option<Desktop>)
    ensures
        opt_desktop_view(r) == entry_desktop(entry_values(*entry)),
{
    let section = "Desktop Entry";
    let fields = DesktopFields {
        name: section_attr(entry, section, "Name"),
        command: section_attr(entry, section, "Exec"),
        categories: section_attr(entry, section, "Categories"),
        icon: section_attr(entry, section, "Icon"),
        no_display: section_attr(entry, section, "NoDisplay"),
        terminal: section_attr(entry, section, "Terminal"),
    };
    extract_desktop(fields)
}

/// The entry that a descriptor file's bytes yield, if any.
pub open spec fn file_desktop(bytes: Seq<u8>) -> Option<DesktopView> {
    match parsed_values(bytes) {
        Some(m) => entry_desktop(m),
        None => None,
    }
}

pub open spec fn byte_views(files: Seq<Vec<u8>>) -> Seq<Seq<u8>> {
    files.map_values(|f: Vec<u8>| f@)
}

/// The entries that the files yield, in the order of the files.
pub open spec fn files_desktops(files: Seq<Seq<u8>>) -> Seq<DesktopView>
    decreases files.len(),
{
    if files.len() == 0 {
        Seq::empty()
    } else {
        let prev = files_desktops(files.drop_last());
        match file_desktop(files.last()) {
            Some(d) => prev.push(d),
            None => prev,
        }
    }
}

/// Parses each descriptor's bytes and keeps the entries they yield, in order;
/// a descriptor that does not parse or yields no entry is skipped.
pub fn parse_desktop_files(files: Vec<Vec<u8>>) -> (r: Vec<Desktop>)
    ensures
        r@.map_values(|d: Desktop| d@) == files_desktops(byte_views(files@)),
{
    let ghost all = byte_views(files@);
    let n = files.len();
    let mut rest = files;
    let mut out: Vec<Desktop> = Vec::new();
    let mut taken: usize = 0;
    assert(all.subrange(0, 0) =~= Seq::<Seq<u8>>::empty());
    assert(out@.map_values(|d: Desktop| d@) =~= Seq::<DesktopView>::empty());
    while taken < n
        invariant
            n == all.len(),
            taken <= n,
            byte_views(rest@) == all.subrange(taken as int, n as int),
            out@.map_values(|d: Desktop| d@) == files_desktops(all.subrange(0, taken as int)),
        decreases n - taken,
    {
        let ghost old_rest = rest@;
        assert(byte_views(old_rest).len() == old_rest.len());
        assert(byte_views(old_rest)[0] == old_rest[0]@);
        let bytes = rest.remove(0);
        assert(rest@ =~= old_rest.subrange(1, old_rest.len() as int));
        assert(byte_views(rest@) =~= all.subrange(taken + 1, n as int)) by {
            assert forall|i: int| 0 <= i < rest@.len() implies byte_views(rest@)[i] == all[taken + 1
                + i] by {
                assert(byte_views(old_rest)[i + 1] == old_rest[i + 1]@);
            }
        }
        let ghost prefix = all.subrange(0, taken + 1);
        assert(prefix.drop_last() =~= all.subrange(0, taken as int));
        assert(prefix.last() == bytes@);
        if let Some(entry) = parse_descriptor(bytes) {
            if let Some(d) = extract_desktop_from_entry(&entry) {
                let ghost before = out@;
                out.push(d);
                assert(out@.map_values(|d: Desktop| d@) =~= before.map_values(|d: Desktop| d@).push(
                    d@,
                ));
            }
        }
        taken = taken + 1;
    }
    assert(all.subrange(0, n as int) =~= all);
    out
}

} // verus!
