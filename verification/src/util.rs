//! Path spelling (long-path prefixes, normalisation, drive roots), drive
//! descriptions, and the interpretation of process and service listings.
use vstd::prelude::*;

use crate::text::{
    contains_seq, ends_with, find_char, is_prefix, is_suffix, lower_chars, lower_of, slice_of,
    starts_with, str_chars, string_from_chars, upper_chars,
};

verus! {

/// `s` with every `from` character replaced by `to`.
pub open spec fn replace_char(s: Seq<char>, from: char, to: char) -> Seq<char> {
    s.map_values(|c: char| if c == from { to } else { c })
}

/// `s` with every `from` replaced by `to`.
pub fn replace_char_exec(s: &[char], from: char, to: char) -> (r: Vec<char>)
    ensures
        r@ == replace_char(s@, from, to),
{
    let mut r: Vec<char> = Vec::new();
    let mut i: usize = 0;
    while i < s.len()
        invariant
            i <= s.len(),
            r@ == replace_char(s@.take(i as int), from, to),
        decreases s.len() - i,
    {
        let c = s[i];
        r.push(if c == from { to } else { c });
        proof {
            assert(s@.take(i + 1) =~= s@.take(i as int).push(c));
            assert(replace_char(s@.take(i + 1), from, to) =~= replace_char(s@.take(i as int), from, to).push(if c == from { to } else { c }));
        }
        i = i + 1;
    }
    assert(s@.take(s.len() as int) =~= s@);
    r
}

/// `\\?\` as characters.
pub open spec fn verbatim_prefix() -> Seq<char> {
    seq!['\\', '\\', '?', '\\']
}

/// `\\?\UNC\` as characters.
pub open spec fn verbatim_unc_prefix() -> Seq<char> {
    seq!['\\', '\\', '?', '\\', 'U', 'N', 'C', '\\']
}

/// `\\` as characters.
pub open spec fn unc_prefix() -> Seq<char> {
    seq!['\\', '\\']
}

/// An ASCII letter.
pub open spec fn is_ascii_alpha(c: char) -> bool {
    ('a' <= c && c <= 'z') || ('A' <= c && c <= 'Z')
}

/// A path separator (`\\` or `/`).
pub open spec fn is_sep(c: char) -> bool {
    c == '\\' || c == '/'
}

/// A Windows path with a drive prefix and a root, such as `C:\x` or `c:/x`
/// (the paths of this shape that std's `Path::is_absolute` accepts besides
/// those that begin with `\\`).
pub open spec fn is_drive_absolute(s: Seq<char>) -> bool {
    s.len() >= 3 && is_ascii_alpha(s[0]) && s[1] == ':' && is_sep(s[2])
}

/// The long-path spelling of a path (`\\?\` prefix for absolute paths).
pub open spec fn long_path_spec(s: Seq<char>) -> Seq<char> {
    if is_prefix(verbatim_prefix(), s) {
        s
    } else if is_prefix(unc_prefix(), s) {
        verbatim_unc_prefix() + s.skip(2)
    } else if is_drive_absolute(s) {
        verbatim_prefix() + s
    } else {
        s
    }
}

fn chars_of_literal(lit: &str) -> (v: Vec<char>)
    ensures
        v@ == lit@,
{
    str_chars(lit)
}

fn verbatim_prefix_exec() -> (v: Vec<char>)
    ensures
        v@ == verbatim_prefix(),
{
    let mut v: Vec<char> = Vec::new();
    v.push('\\');
    v.push('\\');
    v.push('?');
    v.push('\\');
    v
}

fn verbatim_unc_prefix_exec() -> (v: Vec<char>)
    ensures
        v@ == verbatim_unc_prefix(),
{
    let mut v = verbatim_prefix_exec();
    v.push('U');
    v.push('N');
    v.push('C');
    v.push('\\');
    v
}

fn is_ascii_alpha_exec(c: char) -> (b: bool)
    ensures
        b == is_ascii_alpha(c),
{
    ('a' <= c && c <= 'z') || ('A' <= c && c <= 'Z')
}

fn is_drive_absolute_exec(s: &[char]) -> (b: bool)
    ensures
        b == is_drive_absolute(s@),
{
    s.len() >= 3 && is_ascii_alpha_exec(s[0]) && s[1] == ':' && (s[2] == '\\' || s[2] == '/')
}

/// Adds the `\\?\` prefix to absolute paths so that paths longer than 260
/// characters work; UNC paths become `\\?\UNC\...`; anything else is returned as is.
pub fn long_path(p: &str) -> (r: String)
    ensures
        r@ == long_path_spec(p@),
{
    let s = str_chars(p);
    let vp = verbatim_prefix_exec();
    if starts_with(&s, &vp) {
        return string_from_chars(&s);
    }
    let mut unc: Vec<char> = Vec::new();
    unc.push('\\');
    unc.push('\\');
    assert(unc@ == unc_prefix());
    if starts_with(&s, &unc) {
        let mut out = verbatim_unc_prefix_exec();
        let rest = slice_of(&s, 2, s.len());
        out.extend_from_slice(&rest);
        assert(s@.skip(2) =~= s@.subrange(2, s@.len() as int));
        return string_from_chars(&out);
    }
    if is_drive_absolute_exec(&s) {
        let mut out = vp;
        out.extend_from_slice(&s);
        return string_from_chars(&out);
    }
    string_from_chars(&s)
}

/// The stored spelling of a path: `/` becomes `\`, then a `\\?\UNC\` prefix
/// becomes `\\`, or a `\\?\` prefix is removed.
pub open spec fn normalize_path_spec(p: Seq<char>) -> Seq<char> {
    let s = replace_char(p, '/', '\\');
    if is_prefix(verbatim_unc_prefix(), s) {
        unc_prefix() + s.skip(8)
    } else if is_prefix(verbatim_prefix(), s) {
        s.skip(4)
    } else {
        s
    }
}

/// The normalised form of a path (see `normalize_path_spec`).
pub fn normalize_chars(p: &[char]) -> (r: Vec<char>)
    ensures
        r@ == normalize_path_spec(p@),
{
    let s = replace_char_exec(p, '/', '\\');
    let vu = verbatim_unc_prefix_exec();
    if starts_with(&s, &vu) {
        let mut out: Vec<char> = Vec::new();
        out.push('\\');
        out.push('\\');
        let rest = slice_of(&s, 8, s.len());
        out.extend_from_slice(&rest);
        assert(s@.skip(8) =~= s@.subrange(8, s@.len() as int));
        assert(out@ =~= unc_prefix() + s@.skip(8));
        return out;
    }
    let vp = verbatim_prefix_exec();
    if starts_with(&s, &vp) {
        let out = slice_of(&s, 4, s.len());
        assert(s@.skip(4) =~= s@.subrange(4, s@.len() as int));
        return out;
    }
    s
}

/// Normalises a path string for storage and comparison (file-system calls
/// still go through `long_path`).
pub fn normalize_path(p: &str) -> (r: String)
    ensures
        r@ == normalize_path_spec(p@),
{
    let s = str_chars(p);
    let n = normalize_chars(&s);
    string_from_chars(&n)
}

/// ASCII upper case of a letter (other characters unchanged).
pub open spec fn ascii_upper(c: char) -> char {
    if 'a' <= c && c <= 'z' { ((c as u32) - 32) as char } else { c }
}

/// ASCII upper case of a character (others unchanged).
pub fn ascii_upper_exec(c: char) -> (r: char)
    ensures
        r == ascii_upper(c),
{
    if 'a' <= c && c <= 'z' {
        let u = (c as u32) - 32;
        assert(u < 0xD800);
        u as u8 as char
    } else {
        c
    }
}

/// The drive root `X:\` of a path spelled `x:\...` or `x:/...`; `None` otherwise.
pub open spec fn drive_root_spec(p: Seq<char>) -> Option<Seq<char>> {
    if is_drive_absolute(p) {
        Some(seq![ascii_upper(p[0]), ':', '\\'])
    } else {
        None
    }
}

/// Drive root of a path (`"C:\"`), or `None` when the path does not start with a drive.
pub fn drive_root_of(path: &str) -> (r: Option<String>)
    ensures
        match r {
            Some(s) => drive_root_spec(path@) == Some(s@),
            None => drive_root_spec(path@) is None,
        },
{
    let s = str_chars(path);
    match drive_root_chars(&s) {
        Some(v) => Some(string_from_chars(&v)),
        None => None,
    }
}

/// The drive root of a path given as characters (see `drive_root_spec`).
pub fn drive_root_chars(s: &[char]) -> (r: Option<Vec<char>>)
    ensures
        match r {
            Some(v) => drive_root_spec(s@) == Some(v@),
            None => drive_root_spec(s@) is None,
        },
{
    if is_drive_absolute_exec(s) {
        let mut v: Vec<char> = Vec::new();
        v.push(ascii_upper_exec(s[0]));
        v.push(':');
        v.push('\\');
        assert(v@ =~= seq![ascii_upper(s@[0]), ':', '\\']);
        Some(v)
    } else {
        None
    }
}

/// The drive letter (upper case) of a path that starts with a drive, as a one-letter string.
pub fn drive_letter_of(path: &str) -> (r: Option<String>)
    ensures
        match r {
            Some(s) => is_drive_absolute(path@) && s@ == seq![ascii_upper(path@[0])],
            None => !is_drive_absolute(path@),
        },
{
    let s = str_chars(path);
    if is_drive_absolute_exec(&s) {
        let mut v: Vec<char> = Vec::new();
        v.push(ascii_upper_exec(s[0]));
        assert(v@ =~= seq![ascii_upper(s@[0])]);
        Some(string_from_chars(&v))
    } else {
        None
    }
}

/// Name of a `GetDriveTypeW` code.
pub open spec fn drive_type_name_spec(t: u32) -> Seq<char> {
    if t == 2 { "removable"@ } else if t == 3 { "fixed"@ } else if t == 4 { "remote"@ }
    else if t == 5 { "cdrom"@ } else if t == 6 { "ramdisk"@ } else { "unknown"@ }
}

/// Name of a `GetDriveTypeW` code.
pub fn drive_type_name(t: u32) -> (r: &'static str)
    ensures
        r@ == drive_type_name_spec(t),
{
    if t == 2 {
        "removable"
    } else if t == 3 {
        "fixed"
    } else if t == 4 {
        "remote"
    } else if t == 5 {
        "cdrom"
    } else if t == 6 {
        "ramdisk"
    } else {
        "unknown"
    }
}

/// A local drive as the drive list shows it.
pub struct DriveInfo {
    pub letter: String,
    pub total_bytes: u64,
    pub free_bytes: u64,
    pub used_bytes: u64,
    pub fs_name: String,
    pub drive_type: String,
}

/// The drive list entry for the drive with letter index `index` (0 = `A`), from
/// what Windows reported of it: whether the capacity query succeeded, the total
/// and free bytes, the drive type code and the file-system name.  Drives whose
/// capacity is unknown or zero, network drives (4) and optical drives (5) are left out.
pub fn drive_info_from(index: u32, capacity_ok: bool, total: u64, free: u64, dtype: u32, fs_name: String) -> (r: Option<DriveInfo>)
    requires
        index < 26,
    ensures
        match r {
            Some(d) => {
                &&& capacity_ok && total != 0 && dtype != 4 && dtype != 5
                &&& d.letter@ == seq![(65 + index) as char]
                &&& d.total_bytes == total
                &&& d.free_bytes == free
                &&& d.used_bytes == (if total >= free { total - free } else { 0 })
                &&& d.fs_name == fs_name
                &&& d.drive_type@ == drive_type_name_spec(dtype)
            },
            None => !capacity_ok || total == 0 || dtype == 4 || dtype == 5,
        },
{
    if !capacity_ok || total == 0 {
        return None;
    }
    if dtype == 4 || dtype == 5 {
        return None;
    }
    let mut l: Vec<char> = Vec::new();
    let c = (65u8 + index as u8) as char;
    l.push(c);
    assert(l@ =~= seq![(65 + index) as char]);
    let tn = drive_type_name(dtype);
    Some(DriveInfo {
        letter: string_from_chars(&l),
        total_bytes: total,
        free_bytes: free,
        used_bytes: total.saturating_sub(free),
        fs_name,
        drive_type: tn.to_owned(),
    })
}

// ---------------------------------------------------------------------------
// Process and service listings
// ---------------------------------------------------------------------------

/// The lines of a text as std's `str::lines` yields them: split at `\n`, a
/// trailing `\r` removed from each line, and no final empty line after a
/// terminating `\n`.
pub open spec fn lines_spec(s: Seq<char>) -> Seq<Seq<char>>
    decreases s.len(),
{
    if s.len() == 0 {
        Seq::empty()
    } else {
        let i = first_index_of(s, '\n');
        if i < s.len() {
            proof {
                lemma_first_index_of(s, '\n');
            }
            seq![strip_cr(s.take(i))] + lines_spec(s.skip(i + 1))
        } else {
            seq![strip_cr(s)]
        }
    }
}

/// Index of the first `c` in `s`, or `s.len()`.
pub open spec fn first_index_of(s: Seq<char>, c: char) -> int
    decreases s.len(),
{
    if s.len() == 0 {
        0
    } else if s[0] == c {
        0
    } else {
        1 + first_index_of(s.drop_first(), c)
    }
}

/// A line without its trailing carriage return.
pub open spec fn strip_cr(l: Seq<char>) -> Seq<char> {
    if l.len() > 0 && l.last() == '\r' { l.drop_last() } else { l }
}

/// `s` with all leading and trailing `c` characters removed (std `trim_matches`).
pub open spec fn trim_char(s: Seq<char>, c: char) -> Seq<char>
    decreases s.len(),
{
    if s.len() > 0 && s[0] == c {
        trim_char(s.drop_first(), c)
    } else if s.len() > 0 && s.last() == c {
        trim_char(s.drop_last(), c)
    } else {
        s
    }
}

/// The first index of a character is where it first occurs.
pub proof fn lemma_first_index_of(s: Seq<char>, c: char)
    ensures
        0 <= first_index_of(s, c) <= s.len(),
        forall|k: int| 0 <= k < first_index_of(s, c) ==> s[k] != c,
        first_index_of(s, c) < s.len() ==> s[first_index_of(s, c)] == c,
    decreases s.len(),
{
    if s.len() > 0 && s[0] != c {
        lemma_first_index_of(s.drop_first(), c);
        assert forall|k: int| 0 <= k < first_index_of(s, c) implies s[k] != c by {
            if k > 0 {
                assert(s[k] == s.drop_first()[k - 1]);
            }
        }
    }
}

/// A position holding `c` with no `c` before it is the first index of `c`.
pub proof fn lemma_first_index_unique(s: Seq<char>, c: char, i: int)
    requires
        0 <= i <= s.len(),
        forall|k: int| 0 <= k < i ==> s[k] != c,
        i < s.len() ==> s[i] == c,
    ensures
        first_index_of(s, c) == i,
    decreases s.len(),
{
    if s.len() > 0 && i > 0 {
        lemma_first_index_unique(s.drop_first(), c, i - 1);
    }
}

/// The first field of a comma-separated line.
pub open spec fn first_field(l: Seq<char>) -> Seq<char> {
    l.take(first_index_of(l, ','))
}

/// `.exe` as characters.
pub open spec fn exe_suffix() -> Seq<char> {
    seq!['.', 'e', 'x', 'e']
}

/// The process name that a line of `tasklist /FO CSV /NH` output names:
/// its first field without quotes, lower-cased; `None` if it does not end in `.exe`.
pub open spec fn process_of_line(l: Seq<char>) -> Option<Seq<char>> {
    let n = lower_chars(trim_char(first_field(l), '"'));
    if is_suffix(exe_suffix(), n) { Some(n) } else { None }
}

/// The set of process names that a `tasklist` listing names.
pub open spec fn listed_processes(out: Seq<char>) -> Set<Seq<char>> {
    Set::new(|n: Seq<char>| exists|i: int| 0 <= i < lines_spec(out).len() && #[trigger] process_of_line(lines_spec(out)[i]) == Some(n))
}

fn trim_char_exec(s: &[char], c: char) -> (r: Vec<char>)
    ensures
        r@ == trim_char(s@, c),
{
    let mut a: usize = 0;
    let mut b: usize = s.len();
    assert(s@.subrange(0, s@.len() as int) =~= s@);
    while a < b && (s[a] == c || s[b - 1] == c)
        invariant
            a <= b <= s.len(),
            trim_char(s@.subrange(a as int, b as int), c) == trim_char(s@, c),
        decreases b - a,
    {
        let ghost t = s@.subrange(a as int, b as int);
        if s[a] == c {
            assert(t.drop_first() =~= s@.subrange(a + 1, b as int));
            a = a + 1;
        } else {
            assert(t.drop_last() =~= s@.subrange(a as int, b - 1));
            b = b - 1;
        }
    }
    proof {
        assert(s@.subrange(0, s@.len() as int) =~= s@);
    }
    slice_of(s, a, b)
}

/// Splits text into lines as `str::lines` does.
pub fn split_lines(s: &[char]) -> (r: Vec<Vec<char>>)
    ensures
        r@.len() == lines_spec(s@).len(),
        forall|i: int| 0 <= i < r@.len() ==> #[trigger] r@[i]@ == lines_spec(s@)[i],
{
    let mut r: Vec<Vec<char>> = Vec::new();
    let mut start: usize = 0;
    assert(s@.skip(0) =~= s@);
    assert(r@.map_values(|v: Vec<char>| v@) =~= Seq::<Seq<char>>::empty());
    while start < s.len()
        invariant
            start <= s.len(),
            lines_spec(s@) == r@.map_values(|v: Vec<char>| v@) + lines_spec(s@.skip(start as int)),
        decreases s.len() - start,
    {
        let ghost rest = s@.skip(start as int);
        let mut j = start;
        while j < s.len() && s[j] != '\n'
            invariant
                start <= j <= s.len(),
                forall|k: int| start <= k < j ==> s@[k] != '\n',
            decreases s.len() - j,
        {
            j = j + 1;
        }
        proof {
            assert forall|k: int| 0 <= k < j - start implies rest[k] != '\n' by {
                assert(rest[k] == s@[start + k]);
            }
            lemma_first_index_unique(rest, '\n', j - start);
        }
        let mut line = slice_of(s, start, j);
        if line.len() > 0 && line[line.len() - 1] == '\r' {
            line.pop();
        }
        let ghost old_r = r@;
        proof {
            assert(rest.take(j - start) =~= s@.subrange(start as int, j as int));
        }
        r.push(line);
        if j < s.len() {
            proof {
                assert(rest.skip(j - start + 1) =~= s@.skip(j + 1));
                assert(r@.map_values(|v: Vec<char>| v@) =~= old_r.map_values(|v: Vec<char>| v@).push(strip_cr(rest.take(j - start))));
            }
            start = j + 1;
        } else {
            proof {
                assert(rest.take(j - start) =~= rest);
                assert(s@.skip(j as int) =~= Seq::<char>::empty());
                assert(r@.map_values(|v: Vec<char>| v@) =~= old_r.map_values(|v: Vec<char>| v@).push(strip_cr(rest)));
            }
            start = j;
        }
    }
    proof {
        assert(s@.skip(start as int) =~= Seq::<char>::empty());
        assert(lines_spec(s@) =~= r@.map_values(|v: Vec<char>| v@));
    }
    r
}

/// Some of the first `i` lines name process `n`.
pub open spec fn named_in_first(ls: Seq<Seq<char>>, i: int, n: Seq<char>) -> bool {
    exists|k: int| 0 <= k < i && #[trigger] process_of_line(ls[k]) == Some(n)
}

/// `n` is the view of one of the strings.
pub open spec fn listed_in(r: Seq<String>, n: Seq<char>) -> bool {
    exists|k: int| 0 <= k < r.len() && #[trigger] r[k]@ == n
}

fn seq_contains_exec(v: &Vec<String>, x: &Vec<char>) -> (b: bool)
    ensures
        b == exists|i: int| 0 <= i < v.len() && #[trigger] v@[i]@ == x@,
{
    let mut i: usize = 0;
    while i < v.len()
        invariant
            i <= v.len(),
            forall|k: int| 0 <= k < i ==> #[trigger] v@[k]@ != x@,
        decreases v.len() - i,
    {
        let c = str_chars(v[i].as_str());
        if c.len() == x.len() && starts_with(&c, x) {
            assert(c@ =~= x@) by {
                assert(c@.take(x@.len() as int) =~= c@);
            }
            return true;
        }
        proof {
            if v@[i as int]@ == x@ {
                assert(c@.take(x@.len() as int) =~= c@);
            }
        }
        i = i + 1;
    }
    false
}

/// The running processes named by the output of `tasklist /FO CSV /NH`: each
/// line's first field, quotes removed and lower-cased, kept if it ends in `.exe`.
/// Each name is listed once.
pub fn running_process_set(output: &str) -> (r: Vec<String>)
    ensures
        forall|n: Seq<char>| #[trigger] listed_processes(output@).contains(n) <==> listed_in(r@, n),
        forall|i: int, j: int| 0 <= i < j < r.len() ==> r@[i]@ != r@[j]@,
{
    let s = str_chars(output);
    let lines = split_lines(&s);
    let mut r: Vec<String> = Vec::new();
    let mut i: usize = 0;
    let ghost ls = lines_spec(s@);
    while i < lines.len()
        invariant
            i <= lines.len(),
            s@ == output@,
            ls == lines_spec(s@),
            lines@.len() == ls.len(),
            forall|k: int| 0 <= k < lines@.len() ==> #[trigger] lines@[k]@ == ls[k],
            forall|n: Seq<char>| #[trigger] named_in_first(ls, i as int, n) <==> listed_in(r@, n),
            forall|a: int, b: int| 0 <= a < b < r.len() ==> r@[a]@ != r@[b]@,
        decreases lines.len() - i,
    {
        let line = &lines[i];
        let cut = match find_char(line, ',') {
            Some(k) => k,
            None => line.len(),
        };
        proof {
            lemma_first_index_unique(line@, ',', cut as int);
        }
        let field = slice_of(line, 0, cut);
        assert(field@ =~= first_field(line@));
        let bare = trim_char_exec(&field, '"');
        let name = lower_of(&bare);
        let exe = chars_of_literal(".exe");
        proof {
            reveal_strlit(".exe");
            assert(exe@ =~= exe_suffix());
        }
        let ghost r_before = r@;
        if ends_with(&name, &exe) {
            if !seq_contains_exec(&r, &name) {
                r.push(string_from_chars(&name));
            }
        }
        proof {
            assert(process_of_line(ls[i as int]) == (if is_suffix(exe_suffix(), name@) { Some(name@) } else { None::<Seq<char>> }));
            assert forall|n: Seq<char>| #[trigger] named_in_first(ls, i + 1, n) <==> listed_in(r@, n) by {
                if named_in_first(ls, i + 1, n) {
                    let k = choose|k: int| 0 <= k < i + 1 && #[trigger] process_of_line(ls[k]) == Some(n);
                    if k < i {
                        assert(named_in_first(ls, i as int, n));
                        let m = choose|m: int| 0 <= m < r_before.len() && #[trigger] r_before[m]@ == n;
                        assert(r@[m] == r_before[m]);
                    } else if listed_in(r_before, n) {
                        let m = choose|m: int| 0 <= m < r_before.len() && #[trigger] r_before[m]@ == n;
                        assert(r@[m] == r_before[m]);
                    } else {
                        assert(r@[r.len() - 1]@ == n);
                    }
                }
                if listed_in(r@, n) {
                    let k = choose|k: int| 0 <= k < r.len() && #[trigger] r@[k]@ == n;
                    if k < r_before.len() {
                        assert(r_before[k]@ == n);
                        assert(listed_in(r_before, n));
                        assert(listed_in(r_before, n) ==> named_in_first(ls, i as int, n));
                        let k2 = choose|k2: int| 0 <= k2 < i && #[trigger] process_of_line(ls[k2]) == Some(n);
                        assert(process_of_line(ls[k2]) == Some(n));
                    } else {
                        assert(process_of_line(ls[i as int]) == Some(n));
                    }
                }
            }
        }
        i = i + 1;
    }
    proof {
        assert forall|n: Seq<char>| #[trigger] listed_processes(output@).contains(n) <==> listed_in(r@, n) by {
            if listed_processes(output@).contains(n) {
                let k = choose|k: int| 0 <= k < lines_spec(output@).len() && #[trigger] process_of_line(lines_spec(output@)[k]) == Some(n);
                assert(process_of_line(ls[k]) == Some(n));
                assert(named_in_first(ls, i as int, n));
            }
            if named_in_first(ls, i as int, n) {
                let k = choose|k: int| 0 <= k < i && #[trigger] process_of_line(ls[k]) == Some(n);
                assert(process_of_line(lines_spec(output@)[k]) == Some(n));
            }
        }
    }
    r
}

/// The browsers the cleaner warns about, in display order: executable name and label.
pub open spec fn browser_label(present: bool, label: Seq<char>) -> Seq<Seq<char>> {
    if present { seq![label] } else { Seq::empty() }
}

fn listed_in_exec(r: &Vec<String>, lit: &str) -> (b: bool)
    ensures
        b == listed_in(r@, lit@),
{
    let x = str_chars(lit);
    seq_contains_exec(r, &x)
}

/// The browsers that are running, from the output of `tasklist /FO CSV /NH`:
/// `Chrome`, `Edge`, `Firefox`, in this order, each when its executable
/// (`chrome.exe`, `msedge.exe`, `firefox.exe`) is listed.
pub fn running_browsers(tasklist_output: &str) -> (r: Vec<String>)
    ensures
        r@.map_values(|s: String| s@) == browser_label(listed_processes(tasklist_output@).contains("chrome.exe"@), "Chrome"@)
            + browser_label(listed_processes(tasklist_output@).contains("msedge.exe"@), "Edge"@)
            + browser_label(listed_processes(tasklist_output@).contains("firefox.exe"@), "Firefox"@),
{
    let procs = running_process_set(tasklist_output);
    let mut out: Vec<String> = Vec::new();
    let c = listed_in_exec(&procs, "chrome.exe");
    if c {
        out.push("Chrome".to_owned());
    }
    let e = listed_in_exec(&procs, "msedge.exe");
    if e {
        out.push("Edge".to_owned());
    }
    let f = listed_in_exec(&procs, "firefox.exe");
    if f {
        out.push("Firefox".to_owned());
    }
    assert(out@.map_values(|s: String| s@) =~= browser_label(c, "Chrome"@) + browser_label(e, "Edge"@) + browser_label(f, "Firefox"@));
    out
}

/// Whether the Windows Update service runs, from the output of `sc.exe query
/// wuauserv`: its upper-cased text contains `RUNNING`.
pub fn wuauserv_running(sc_output: &str) -> (b: bool)
    ensures
        b == contains_seq("RUNNING"@, upper_chars(sc_output@)),
{
    let up = crate::text::to_upper(sc_output);
    let u = str_chars(up.as_str());
    let k = str_chars("RUNNING");
    crate::text::contains(&u, &k)
}

} // verus!
