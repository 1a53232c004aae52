//! Names of files and folders in the vault, and the check that keeps paths
//! inside it.

use vstd::prelude::*;
use crate::parse::tags::strings_view;
use crate::text::{chars_eq, chars_of, decimal, push_all, push_decimal, string_of, trim, trim_bounds};

verus! {

pub open spec fn md_ext() -> Seq<char> {
    seq!['.', 'm', 'd']
}

/// `name` with `.md` appended: the file of a note given without its
/// extension, of a daily note, of a template.
pub fn md_file(name: &str) -> (r: String)
    ensures
        r@ == name@ + md_ext(),
{
    let mut out = chars_of(name);
    push_all(&mut out, &['.', 'm', 'd']);
    assert(out@ =~= name@ + md_ext());
    string_of(&out)
}

/// The name under which a note goes to the trash when its own name is
/// taken: `<stem> (<counter>)<ext>`.
pub open spec fn trash_name_spec(stem: Seq<char>, counter: nat, ext: Seq<char>) -> Seq<char> {
    stem + seq![' ', '('] + decimal(counter) + seq![')'] + ext
}

/// The trash name of a note with `stem` and `ext` (see `trash_name_spec`).
pub fn trash_name(stem: &str, counter: u64, ext: &str) -> (r: String)
    ensures
        r@ == trash_name_spec(stem@, counter as nat, ext@),
{
    let mut out = chars_of(stem);
    push_all(&mut out, &[' ', '(']);
    push_decimal(&mut out, counter);
    out.push(')');
    push_all(&mut out, &chars_of(ext));
    assert(out@ =~= trash_name_spec(stem@, counter as nat, ext@));
    string_of(&out)
}

proof fn lemma_decimal_shape(n: nat)
    ensures
        decimal(n).len() >= 1,
        decimal(n).last() == crate::text::digit_char((n % 10) as int),
        n >= 10 ==> decimal(n).drop_last() == decimal(n / 10),
        n < 10 ==> decimal(n).len() == 1,
        n >= 10 ==> decimal(n).len() >= 2,
    decreases n,
{
    if n >= 10 {
        lemma_decimal_shape(n / 10);
        assert(decimal(n).drop_last() =~= decimal(n / 10));
    }
}

proof fn lemma_decimal_injective(a: nat, b: nat)
    requires
        decimal(a) == decimal(b),
    ensures
        a == b,
    decreases a,
{
    lemma_decimal_shape(a);
    lemma_decimal_shape(b);
    let da = a % 10;
    let db = b % 10;
    assert(crate::text::digit_char(da as int) == crate::text::digit_char(db as int));
    assert(((48 + da) as u8) as char == ((48 + db) as u8) as char);
    assert(da == db);
    if a >= 10 && b >= 10 {
        lemma_decimal_injective(a / 10, b / 10);
    }
}

/// Different counters give different trash names, none of them the note's
/// own name: looking for a free name in the trash never meets a name twice.
pub proof fn law_trash_names_differ(stem: Seq<char>, ext: Seq<char>, a: nat, b: nat)
    requires
        a != b,
    ensures
        trash_name_spec(stem, a, ext) != trash_name_spec(stem, b, ext),
        trash_name_spec(stem, a, ext) != stem + ext,
{
    lemma_decimal_shape(a);
    lemma_decimal_shape(b);
    let x = trash_name_spec(stem, a, ext);
    let y = trash_name_spec(stem, b, ext);
    assert(x.len() == stem.len() + 3 + decimal(a).len() + ext.len());
    assert(y.len() == stem.len() + 3 + decimal(b).len() + ext.len());
    assert(x.len() > (stem + ext).len());
    if x == y {
        let da = decimal(a);
        let db = decimal(b);
        assert(da.len() == db.len());
        let o: int = stem.len() as int + 2;
        assert(da =~= x.subrange(o, o + da.len()));
        assert(db =~= y.subrange(o, o + db.len()));
        lemma_decimal_injective(a, b);
    }
}

/// How deep `list_vault` walks: the requested depth, 10 by default, at most
/// 20.
pub open spec fn walk_depth_spec(depth: Option<usize>) -> int {
    let d = match depth {
        Some(d) => d as int,
        None => 10,
    };
    if d < 20 {
        d
    } else {
        20
    }
}

/// The depth that `list_vault` walks to (see `walk_depth_spec`).
pub fn walk_depth(depth: Option<usize>) -> (r: usize)
    ensures
        r == walk_depth_spec(depth),
{
    let d = match depth {
        Some(d) => d,
        None => 10,
    };
    if d < 20 {
        d
    } else {
        20
    }
}

/// `s` with every backslash turned into a slash.
pub open spec fn slashed(s: Seq<char>) -> Seq<char> {
    s.map_values(|c: char| if c == '\\' { '/' } else { c })
}

/// How `list_vault` lists an entry at the relative path `rel`: folders with
/// a trailing slash, notes as they are, other files and the root not at all.
pub open spec fn entry_label_spec(rel: Seq<char>, is_dir: bool, is_note: bool) -> Option<Seq<char>> {
    let r = slashed(rel);
    if r.len() == 0 {
        None
    } else if is_dir {
        Some(r.push('/'))
    } else if is_note {
        Some(r)
    } else {
        None
    }
}

/// How `list_vault` lists the entry at `rel` (see `entry_label_spec`).
pub fn entry_label(rel: &str, is_dir: bool, is_note: bool) -> (r: Option<String>)
    ensures
        match r {
            Some(t) => entry_label_spec(rel@, is_dir, is_note) == Some(t@),
            None => entry_label_spec(rel@, is_dir, is_note) is None,
        },
{
    let mut out = chars_of(slashed_path(rel).as_str());
    if out.len() == 0 {
        None
    } else if is_dir {
        out.push('/');
        Some(string_of(&out))
    } else if is_note {
        Some(string_of(&out))
    } else {
        None
    }
}

/// A path relative to the vault, written with `/` separators.
pub fn slashed_path(rel: &str) -> (r: String)
    ensures
        r@ == slashed(rel@),
{
    let s = chars_of(rel);
    let mut out: Vec<char> = Vec::new();
    let mut i: usize = 0;
    while i < s.len()
        invariant
            i <= s@.len(),
            out@ == slashed(s@.take(i as int)),
        decreases s@.len() - i,
    {
        let c = s[i];
        out.push(if c == '\\' { '/' } else { c });
        assert(out@ =~= slashed(s@.take(i + 1)));
        i += 1;
    }
    assert(s@.take(s@.len() as int) =~= s@);
    string_of(&out)
}

/// The path, as a list of components, lies under `root`
/// (`Path::starts_with`).
pub open spec fn within(path: Seq<Seq<char>>, root: Seq<Seq<char>>) -> bool {
    root.len() <= path.len() && path.take(root.len() as int) == root
}

/// Does the path with components `path` lie under the one with components
/// `root`? (The check that keeps every file the tools touch in the vault.)
pub fn is_within(path: &Vec<String>, root: &Vec<String>) -> (r: bool)
    ensures
        r == within(strings_view(path@), strings_view(root@)),
{
    let ghost p = strings_view(path@);
    let ghost q = strings_view(root@);
    if root.len() > path.len() {
        return false;
    }
    let mut i: usize = 0;
    while i < root.len()
        invariant
            root@.len() <= path@.len(),
            i <= root@.len(),
            p == strings_view(path@),
            q == strings_view(root@),
            forall|k: int| 0 <= k < i ==> p[k] == q[k],
        decreases root@.len() - i,
    {
        if !chars_eq(&chars_of(path[i].as_str()), &chars_of(root[i].as_str())) {
            assert(p.take(q.len() as int)[i as int] != q[i as int]);
            return false;
        }
        i += 1;
    }
    assert(p.take(q.len() as int) =~= q);
    true
}

/// Why a note path is refused.
#[derive(Debug, Clone, Copy, PartialEq, Eq, Structural)]
pub enum PathError {
    /// Nothing but whitespace.
    Empty,
    /// A component names a hidden file or folder (such as `.obsidian`).
    Hidden,
}

/// A component of `p` starts at `i` and names a hidden file or folder: it
/// opens with `.` and is neither `.` nor `..`.
pub open spec fn hidden_at(p: Seq<char>, i: int) -> bool {
    &&& 0 <= i
    &&& i + 1 < p.len()
    &&& (i == 0 || p[i - 1] == '/')
    &&& p[i] == '.'
    &&& p[i + 1] != '/'
    &&& !(p[i + 1] == '.' && (i + 2 == p.len() || p[i + 2] == '/'))
}

/// What the note tools decide of a note path before touching the disk: a
/// blank path is refused, and so is one that reaches into a hidden file or
/// folder (a vault's settings, its trash); `./` and `../` are ordinary.
pub open spec fn note_path_check(p: Seq<char>) -> Result<(), PathError> {
    if trim(p).len() == 0 {
        Err(PathError::Empty)
    } else if exists|i: int| hidden_at(p, i) {
        Err(PathError::Hidden)
    } else {
        Ok(())
    }
}

/// Checks a note path given to a tool (see `note_path_check`).
pub fn check_note_path(path: &str) -> (r: Result<(), PathError>)
    ensures
        r == note_path_check(path@),
{
    let p = chars_of(path);
    let n = p.len();
    let (lo, hi) = trim_bounds(&p, 0, n);
    assert(p@.subrange(0, n as int) =~= p@);
    if lo == hi {
        return Err(PathError::Empty);
    }
    let mut i: usize = 0;
    while i < n && i < n - 1
        invariant
            n == p@.len(),
            p@ == path@,
            trim(p@).len() != 0,
            forall|k: int| 0 <= k < i ==> !hidden_at(p@, k),
        decreases n - i,
    {
        if (i == 0 || p[i - 1] == '/') && p[i] == '.' && p[i + 1] != '/' && !(p[i + 1] == '.' && (
        i + 2 == n || p[i + 2] == '/')) {
            assert(hidden_at(p@, i as int));
            return Err(PathError::Hidden);
        }
        i += 1;
    }
    assert forall|k: int| !hidden_at(p@, k) by {
        if k >= i && hidden_at(p@, k) {
            assert(k + 1 < n);
        }
    }
    Ok(())
}

} // verus!
