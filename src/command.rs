//! Removal of the field codes (`%f`, `%u`, ...) that a launcher would have
//! substituted in a command line.
use crate::entry::terminal_prefix;
use vstd::prelude::*;
use vstd::string::*;

verus! {

/// The letters of the field codes, in the order in which they are removed.
pub open spec fn field_code_letters() -> Seq<char> {
    seq![
        'f', 'F', 'g', 'G', 'h', 'H', 'j', 'J', 'm', 'M', 'o', 'O', 'q', 'Q', 'r', 'R', 'u', 'U',
        'y', 'Y', 'z', 'Z',
    ]
}

/// `s` with every occurrence of `%` followed by `t` taken out, scanning left to
/// right without overlap.
pub open spec fn remove_code(s: Seq<char>, t: char) -> Seq<char>
    decreases s.len(),
{
    if s.len() == 0 {
        s
    } else if s.len() >= 2 && s[0] == '%' && s[1] == t {
        remove_code(s.subrange(2, s.len() as int), t)
    } else {
        seq![s[0]] + remove_code(s.subrange(1, s.len() as int), t)
    }
}

/// `s` after the first `k` field codes have been removed, one after the other.
pub open spec fn strip_codes_upto(s: Seq<char>, k: nat) -> Seq<char>
    decreases k,
{
    if k == 0 {
        s
    } else {
        remove_code(strip_codes_upto(s, (k - 1) as nat), field_code_letters()[k - 1])
    }
}

/// `s` with all field codes removed, one code at a time over the whole text.
pub open spec fn strip_field_codes(s: Seq<char>) -> Seq<char> {
    strip_codes_upto(s, field_code_letters().len())
}

fn remove_code_from(s: &str, t: char) -> (r: String)
    ensures
        r@ == remove_code(s@, t),
{
    let n = s.unicode_len();
    let mut out = String::new();
    let mut i: usize = 0;
    assert(s@.subrange(0, n as int) =~= s@);
    assert(out@ + remove_code(s@, t) =~= remove_code(s@, t));
    while i < n
        invariant
            n == s@.len(),
            i <= n,
            out@ + remove_code(s@.subrange(i as int, n as int), t) == remove_code(s@, t),
        decreases n - i,
    {
        let ghost rest = s@.subrange(i as int, n as int);
        let c = s.get_char(i);
        if c == '%' && i + 1 < n && s.get_char(i + 1) == t {
            assert(rest.subrange(2, rest.len() as int) =~= s@.subrange(i + 2, n as int));
            i = i + 2;
        } else {
            let piece = s.substring_char(i, i + 1);
            assert(rest.subrange(1, rest.len() as int) =~= s@.subrange(i + 1, n as int));
            assert(piece@ =~= seq![rest[0]]);
            let ghost tail = remove_code(s@.subrange(i + 1, n as int), t);
            assert(out@ + piece@ + tail =~= out@ + (piece@ + tail));
            out.append(piece);
            i = i + 1;
        }
    }
    assert(s@.subrange(n as int, n as int) =~= Seq::<char>::empty());
    assert(out@ + Seq::<char>::empty() =~= out@);
    out
}

/// Removes every field code from a command line (see [`strip_field_codes`]).
pub fn cleanup_exec(exec: String) -> (r: String)
    ensures
        r@ == strip_field_codes(exec@),
{
    let letters: Vec<char> = vec![
        'f', 'F', 'g', 'G', 'h', 'H', 'j', 'J', 'm', 'M', 'o', 'O', 'q', 'Q', 'r', 'R', 'u', 'U',
        'y', 'Y', 'z', 'Z',
    ];
    assert(letters@ =~= field_code_letters());
    let mut cur = exec;
    let mut k: usize = 0;
    while k < letters.len()
        invariant
            letters@ == field_code_letters(),
            k <= letters@.len(),
            cur@ == strip_codes_upto(exec@, k as nat),
        decreases letters@.len() - k,
    {
        cur = remove_code_from(cur.as_str(), letters[k]);
        k = k + 1;
    }
    cur
}

/// No character `a` is directly followed by `b` in `s`.
pub open spec fn no_pair(s: Seq<char>, a: char, b: char) -> bool {
    forall|i: int| 0 <= i < s.len() - 1 ==> !(#[trigger] s[i] == a && s[i + 1] == b)
}

/// No `%` is a character of `p`.
pub open spec fn no_percent(p: Seq<char>) -> bool {
    forall|i: int| 0 <= i < p.len() ==> #[trigger] p[i] != '%'
}

proof fn lemma_remove_code_plain_prefix(p: Seq<char>, s: Seq<char>, t: char)
    requires
        no_percent(p),
    ensures
        remove_code(p + s, t) == p + remove_code(s, t),
    decreases p.len(),
{
    if p.len() == 0 {
        assert(p + s =~= s);
        assert(p + remove_code(s, t) =~= remove_code(s, t));
    } else {
        let q = p.subrange(1, p.len() as int);
        assert(no_percent(q)) by {
            assert forall|i: int| 0 <= i < q.len() implies #[trigger] q[i] != '%' by {
                assert(q[i] == p[i + 1]);
            }
        }
        lemma_remove_code_plain_prefix(q, s, t);
        assert((p + s)[0] == p[0]);
        assert((p + s).subrange(1, (p + s).len() as int) =~= q + s);
        assert(seq![p[0]] + (q + remove_code(s, t)) =~= p + remove_code(s, t));
    }
}

proof fn lemma_strip_plain_prefix(p: Seq<char>, s: Seq<char>, k: nat)
    requires
        no_percent(p),
        k <= field_code_letters().len(),
    ensures
        strip_codes_upto(p + s, k) == p + strip_codes_upto(s, k),
    decreases k,
{
    if k > 0 {
        lemma_strip_plain_prefix(p, s, (k - 1) as nat);
        lemma_remove_code_plain_prefix(
            p,
            strip_codes_upto(s, (k - 1) as nat),
            field_code_letters()[k - 1],
        );
    }
}

/// A command put behind the terminal command keeps that command and its space
/// in front when the field codes are removed: the rest is the command with
/// its own field codes removed.
pub proof fn terminal_prefix_survives_cleanup(command: Seq<char>)
    ensures
        strip_field_codes(terminal_prefix() + seq![' '] + command) == terminal_prefix() + seq![' ']
            + strip_field_codes(command),
{
    let p = terminal_prefix() + seq![' '];
    assert(no_percent(p));
    lemma_strip_plain_prefix(p, command, field_code_letters().len());
}

proof fn lemma_pair_in_tail(s: Seq<char>, d: int, a: char, b: char)
    requires
        0 <= d <= s.len(),
        no_pair(s, a, b),
    ensures
        no_pair(s.subrange(d, s.len() as int), a, b),
{
    let u = s.subrange(d, s.len() as int);
    assert forall|i: int| 0 <= i < u.len() - 1 implies !(#[trigger] u[i] == a && u[i + 1] == b) by {
        assert(u[i] == s[i + d] && u[i + 1] == s[i + 1 + d]);
    }
}

/// Removing the code `%t` from a text without `%%` leaves no `%t`, creates no
/// `%%`, and creates no other `%x` that was not there.
proof fn lemma_remove_code_no_pair(s: Seq<char>, t: char, x: char)
    requires
        no_pair(s, '%', '%'),
        x == t || no_pair(s, '%', x),
    ensures
        no_pair(remove_code(s, t), '%', x),
        no_pair(remove_code(s, t), '%', '%'),
    decreases s.len(),
{
    if s.len() == 0 {
    } else if s.len() >= 2 && s[0] == '%' && s[1] == t {
        let u = s.subrange(2, s.len() as int);
        lemma_pair_in_tail(s, 2, '%', '%');
        if x != t {
            lemma_pair_in_tail(s, 2, '%', x);
        }
        lemma_remove_code_no_pair(u, t, x);
    } else {
        let u = s.subrange(1, s.len() as int);
        lemma_pair_in_tail(s, 1, '%', '%');
        if x != t {
            lemma_pair_in_tail(s, 1, '%', x);
        }
        lemma_remove_code_no_pair(u, t, x);
        let rest = remove_code(u, t);
        let r = seq![s[0]] + rest;
        assert(remove_code(s, t) == r);
        if s[0] == '%' && u.len() > 0 {
            assert(s[1] != '%');
            assert(u[0] == s[1]);
            assert(rest == seq![u[0]] + remove_code(u.subrange(1, u.len() as int), t));
            assert(rest[0] == s[1]);
        }
        assert forall|i: int| 0 <= i < r.len() - 1 implies !(#[trigger] r[i] == '%' && r[i + 1] == x)
            && !(r[i] == '%' && r[i + 1] == '%') by {
            if i > 0 {
                assert(r[i] == rest[i - 1] && r[i + 1] == rest[i]);
            } else {
                assert(r[1] == rest[0]);
            }
        }
    }
}

proof fn lemma_strip_no_pair(s: Seq<char>, k: nat)
    requires
        no_pair(s, '%', '%'),
        k <= field_code_letters().len(),
    ensures
        no_pair(strip_codes_upto(s, k), '%', '%'),
        forall|j: int| 0 <= j < k ==> no_pair(strip_codes_upto(s, k), '%', #[trigger] field_code_letters()[j]),
    decreases k,
{
    if k > 0 {
        let km = (k - 1) as nat;
        lemma_strip_no_pair(s, km);
        let prev = strip_codes_upto(s, km);
        let t = field_code_letters()[km as int];
        lemma_remove_code_no_pair(prev, t, t);
        assert forall|j: int| 0 <= j < k implies no_pair(strip_codes_upto(s, k), '%', #[trigger] field_code_letters()[j]) by {
            lemma_remove_code_no_pair(prev, t, field_code_letters()[j]);
        }
    }
}

/// Once the field codes are removed from a command without `%%`, no field code
/// is left in it.
pub proof fn cleanup_leaves_no_field_code(command: Seq<char>)
    requires
        no_pair(command, '%', '%'),
    ensures
        forall|j: int|
            0 <= j < field_code_letters().len() ==> no_pair(
                strip_field_codes(command),
                '%',
                #[trigger] field_code_letters()[j],
            ),
{
    lemma_strip_no_pair(command, field_code_letters().len());
}

} // verus!
