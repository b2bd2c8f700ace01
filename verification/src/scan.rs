//! Category scanning: the recycle bin's `$I` metadata format, which entries a
//! directory walk keeps, and the per-category results with their warnings.
use vstd::prelude::*;

use crate::category::{join_path, join_spec, matches_name, matches_name_spec, CategoryDef, Risk};
use crate::text::{is_prefix, starts_with, str_chars, string_from_chars};

use crate::state::{cancel_requested, AppState};

verus! {

/// Little-endian value of `b[at..at + n]`.
pub open spec fn le_value(b: Seq<u8>, at: int, n: nat) -> nat
    decreases n,
{
    if n == 0 { 0 } else { b[at] as nat + 256 * le_value(b, at + 1, (n - 1) as nat) }
}

fn read_le(b: &[u8], at: usize, n: usize) -> (v: u64)
    requires
        n <= 8,
        at + n <= b.len(),
    ensures
        v == le_value(b@, at as int, n as nat),
        v < pow256(n as nat),
{
    let mut v: u64 = 0;
    let mut k: usize = n;
    while k > 0
        invariant
            k <= n <= 8,
            at + n <= b.len(),
            v == le_value(b@, at + k, (n - k) as nat),
            v < pow256((n - k) as nat),
        decreases k,
    {
        proof {
            lemma_pow256_bound((n - k) as nat);
        }
        let byte = b[at + k - 1];
        proof {
            assert(le_value(b@, at + k - 1, (n - k + 1) as nat) == b@[at + k - 1] as nat + 256 * le_value(b@, at + k, (n - k) as nat));
            assert(pow256((n - k + 1) as nat) == 256 * pow256((n - k) as nat));
            assert(v * 256 + byte < pow256((n - k + 1) as nat)) by (nonlinear_arith)
                requires
                    v < pow256((n - k) as nat),
                    byte < 256,
                    pow256((n - k + 1) as nat) == 256 * pow256((n - k) as nat);
        }
        v = v * 256 + byte as u64;
        k = k - 1;
    }
    v
}

/// `256^n`.
pub open spec fn pow256(n: nat) -> nat
    decreases n,
{
    if n == 0 { 1 } else { 256 * pow256((n - 1) as nat) }
}

proof fn lemma_pow256_bound(n: nat)
    requires
        n <= 8,
    ensures
        pow256(n) <= 0x1_0000_0000_0000_0000,
        n < 8 ==> 256 * pow256(n) <= 0x1_0000_0000_0000_0000,
{
    reveal_with_fuel(pow256, 9);
}

/// The 16-bit units of `b`, read little-endian in pairs (a trailing odd byte is ignored).
pub open spec fn utf16_units(b: Seq<u8>) -> Seq<u16> {
    Seq::new(b.len() / 2, |i: int| le_value(b, 2 * i, 2) as u16)
}

/// The units before the first zero unit.
pub open spec fn until_nul(u: Seq<u16>) -> Seq<u16>
    decreases u.len(),
{
    if u.len() == 0 || u[0] == 0 { Seq::empty() } else { seq![u[0]] + until_nul(u.skip(1)) }
}

/// A high (leading) surrogate unit.
pub open spec fn is_high_surrogate(u: u16) -> bool {
    0xD800 <= u < 0xDC00
}

/// A low (trailing) surrogate unit.
pub open spec fn is_low_surrogate(u: u16) -> bool {
    0xDC00 <= u < 0xE000
}

/// The code point of a surrogate pair.
pub open spec fn pair_code(hi: u16, lo: u16) -> int {
    0x10000 + (hi - 0xD800) * 0x400 + (lo - 0xDC00)
}

/// Strict UTF-16 decoding (std `String::from_utf16`): `None` when a surrogate is
/// unpaired.
pub open spec fn utf16_decode(u: Seq<u16>) -> Option<Seq<char>>
    decreases u.len(),
{
    if u.len() == 0 {
        Some(Seq::empty())
    } else if !is_high_surrogate(u[0]) && !is_low_surrogate(u[0]) {
        match utf16_decode(u.skip(1)) {
            Some(rest) => Some(seq![u[0] as char] + rest),
            None => None,
        }
    } else if is_high_surrogate(u[0]) && u.len() >= 2 && is_low_surrogate(u[1]) {
        match utf16_decode(u.skip(2)) {
            Some(rest) => Some(seq![pair_code(u[0], u[1]) as char] + rest),
            None => None,
        }
    } else {
        None
    }
}

/// A Unicode scalar value.
pub open spec fn is_scalar(n: u32) -> bool {
    n < 0xD800 || (0xE000 <= n && n <= 0x10FFFF)
}

/// std `char::from_u32`: the character with this scalar value, `None` for a
/// surrogate or a value above `0x10FFFF`.
#[verifier::external_body]
fn char_from_u32(n: u32) -> (r: Option<char>)
    ensures
        match r {
            Some(c) => is_scalar(n) && c as u32 == n && c == n as char,
            None => !is_scalar(n),
        },
{
    char::from_u32(n)
}

/// Decodes little-endian UTF-16 up to the first zero unit (see `utf16_decode`).
pub fn decode_utf16_nul(b: &[u8]) -> (r: Option<String>)
    ensures
        match r {
            Some(s) => utf16_decode(until_nul(utf16_units(b@))) == Some(s@),
            None => utf16_decode(until_nul(utf16_units(b@))) is None,
        },
{
    let ghost units = utf16_units(b@);
    let n = b.len() / 2;
    let mut out: Vec<char> = Vec::new();
    let mut i: usize = 0;
    assert(units.skip(0) =~= units);
    proof {
        match utf16_decode(until_nul(units)) {
            Some(r0) => assert(out@ + r0 =~= r0),
            None => {},
        }
        reveal_with_fuel(pow256, 3);
    }
    loop
        invariant
            n == units.len(),
            i <= n,
            b.len() / 2 == n,
            units == utf16_units(b@),
            pow256(2) == 65536,
            utf16_decode(until_nul(units)) == (match utf16_decode(until_nul(units.skip(i as int))) {
                Some(rest) => Some(out@ + rest),
                None => None::<Seq<char>>,
            }),
        ensures
            utf16_decode(until_nul(utf16_units(b@))) == Some(out@),
        decreases n - i,
    {
        if i >= n {
            assert(units.skip(i as int) =~= Seq::<u16>::empty());
            assert(out@ + Seq::<char>::empty() =~= out@);
            break;
        }
        let u = read_le(b, 2 * i, 2) as u16;
        assert(u == units[i as int]);
        let ghost rest = units.skip(i as int);
        assert(rest[0] == u);
        if u == 0 {
            assert(until_nul(rest) =~= Seq::<u16>::empty());
            assert(out@ + Seq::<char>::empty() =~= out@);
            break;
        }
        proof {
            assert(until_nul(rest) == seq![u] + until_nul(rest.skip(1)));
            assert(rest.skip(1) =~= units.skip(i + 1));
        }
        if u < 0xD800 || u >= 0xE000 {
            let c = char_from_u32(u as u32);
            match c {
                Some(ch) => {
                    proof {
                        let un = until_nul(rest);
                        assert(un[0] == u);
                        assert(un.skip(1) =~= until_nul(units.skip(i + 1)));
                        assert(ch == u as char);
                        match utf16_decode(until_nul(units.skip(i + 1))) {
                            Some(r2) => assert(out@.push(ch) + r2 =~= out@ + (seq![u as char] + r2)),
                            None => {},
                        }
                    }
                    out.push(ch);
                    i = i + 1;
                },
                None => {
                    return None;
                },
            }
        } else if u < 0xDC00 {
            if i + 1 >= n {
                proof {
                    let un = until_nul(rest);
                    assert(un.len() == 1);
                }
                return None;
            }
            let lo = read_le(b, 2 * i + 2, 2) as u16;
            assert(lo == units[i + 1]);
            if lo == 0 || !(0xDC00 <= lo && lo < 0xE000) {
                proof {
                    let un = until_nul(rest);
                    let rest1 = rest.skip(1);
                    assert(rest1[0] == lo);
                    if lo == 0 {
                        assert(until_nul(rest1) =~= Seq::<u16>::empty());
                        assert(un.len() == 1);
                    } else {
                        assert(until_nul(rest1) == seq![lo] + until_nul(rest1.skip(1)));
                        assert(un[1] == lo);
                    }
                }
                return None;
            }
            let code: u32 = 0x10000 + ((u as u32) - 0xD800) * 0x400 + ((lo as u32) - 0xDC00);
            let c = char_from_u32(code);
            match c {
                Some(ch) => {
                    proof {
                        let un = until_nul(rest);
                        let rest1 = rest.skip(1);
                        assert(rest1[0] == lo);
                        assert(until_nul(rest1) == seq![lo] + until_nul(rest1.skip(1)));
                        assert(rest1.skip(1) =~= units.skip(i + 2));
                        assert(un[1] == lo);
                        assert(un.skip(2) =~= until_nul(units.skip(i + 2)));
                        assert(ch == pair_code(u, lo) as char);
                        match utf16_decode(until_nul(units.skip(i + 2))) {
                            Some(r2) => assert(out@.push(ch) + r2 =~= out@ + (seq![pair_code(u, lo) as char] + r2)),
                            None => {},
                        }
                    }
                    out.push(ch);
                    i = i + 2;
                },
                None => {
                    return None;
                },
            }
        } else {
            return None;
        }
    }
    Some(string_from_chars(&out))
}

} // verus!

verus! {

/// The text of a little-endian UTF-16 byte field, up to its first zero unit.
pub open spec fn utf16_field(b: Seq<u8>) -> Option<Seq<char>> {
    utf16_decode(until_nul(utf16_units(b)))
}

/// The size and original path recorded in a recycle-bin `$I` file: a u64
/// version, the u64 size and a u64 file time, then for version 1 a fixed field
/// of 520 bytes of UTF-16, for versions 2 to 4 a u32 length in units followed
/// by that many units. `None` when the record is short, of another version, or
/// its name is not valid UTF-16.
pub open spec fn recycle_meta_spec(b: Seq<u8>) -> Option<(u64, Seq<char>)> {
    if b.len() < 24 {
        None
    } else {
        let version = le_value(b, 0, 8);
        let size = le_value(b, 8, 8) as u64;
        let name = if version == 1 {
            if b.len() < 544 { None } else { utf16_field(b.subrange(24, 544)) }
        } else if 2 <= version <= 4 {
            let end = 28 + 2 * le_value(b, 24, 4);
            if b.len() < end { None } else { utf16_field(b.subrange(28, end as int)) }
        } else {
            None
        };
        match name {
            Some(s) => Some((size, s)),
            None => None,
        }
    }
}

/// Reads a recycle-bin `$I` record (see `recycle_meta_spec`). A record of
/// version 2 to 4 must hold its length field.
pub fn parse_recycle_meta(bytes: &[u8]) -> (r: Option<(u64, String)>)
    requires
        bytes.len() >= 24 && 2 <= le_value(bytes@, 0, 8) <= 4 ==> bytes.len() >= 28,
    ensures
        match r {
            Some((size, s)) => recycle_meta_spec(bytes@) == Some((size, s@)),
            None => recycle_meta_spec(bytes@) is None,
        },
{
    if bytes.len() < 24 {
        return None;
    }
    let version = read_le(bytes, 0, 8);
    let size = read_le(bytes, 8, 8);
    let name = if version == 1 {
        if bytes.len() < 544 {
            return None;
        }
        decode_utf16_nul(vstd::slice::slice_subrange(bytes, 24, 544))
    } else if 2 <= version && version <= 4 {
        let name_len = read_le(bytes, 24, 4);
        proof {
            lemma_pow256_bound(4);
            reveal_with_fuel(pow256, 5);
        }
        let end: u64 = 28 + name_len * 2;
        if (bytes.len() as u64) < end {
            return None;
        }
        decode_utf16_nul(vstd::slice::slice_subrange(bytes, 28, end as usize))
    } else {
        return None;
    };
    match name {
        Some(s) => Some((size, s)),
        None => None,
    }
}

/// A file found by a category scan.
pub struct FileEntry {
    pub path: String,
    pub size: u64,
}

impl FileEntry {
    /// A field-by-field copy.
    pub fn copy(&self) -> (r: FileEntry)
        ensures
            r == *self,
    {
        FileEntry { path: self.path.clone(), size: self.size }
    }
}

/// The data file `$R…` that goes with a recycle-bin metadata file `$I…` in the
/// same directory: the name's leading `$I`s replaced by `$R`. `None` for a name
/// that does not start with `$I`.
pub fn recycle_data_path(sid_dir: &str, meta_name: &str) -> (r: Option<String>)
    ensures
        match r {
            Some(p) => is_prefix("$I"@, meta_name@)
                && p@ == join_spec(sid_dir@, "$R"@ + crate::clean::trim_start_all(meta_name@, "$I"@)),
            None => !is_prefix("$I"@, meta_name@),
        },
{
    let n = str_chars(meta_name);
    let pi = str_chars("$I");
    if !starts_with(&n, &pi) {
        return None;
    }
    let trimmed = crate::clean::trim_start_all_exec(&n, &pi);
    let mut name = str_chars("$R");
    name.extend_from_slice(&trimmed);
    let ns = string_from_chars(&name);
    Some(join_path(sid_dir, ns.as_str()))
}

/// What a directory walk does with one entry.
#[derive(PartialEq, Eq, Structural, Clone, Copy, Debug)]
pub enum WalkStep {
    /// A directory to walk into.
    Descend,
    /// A file the category takes.
    Take,
    /// Anything else.
    Skip,
}

/// The walk's rule: directories are entered unless they are reparse points
/// (junctions, links: never followed); files are taken when they are not cloud
/// placeholders and the category's name rule accepts them.
pub fn walk_step(cat: &CategoryDef, is_dir: bool, is_reparse: bool, is_file: bool, is_cloud_placeholder: bool,
    name: &str) -> (s: WalkStep)
    ensures
        s == (if is_dir {
            if is_reparse { WalkStep::Skip } else { WalkStep::Descend }
        } else if is_file && !is_cloud_placeholder && matches_name_spec(cat.name_match, name@) {
            WalkStep::Take
        } else {
            WalkStep::Skip
        }),
{
    if is_dir {
        if is_reparse { WalkStep::Skip } else { WalkStep::Descend }
    } else if is_file && !is_cloud_placeholder && matches_name(cat, name) {
        WalkStep::Take
    } else {
        WalkStep::Skip
    }
}

} // verus!

verus! {

/// The summary of one category in a scan.
pub struct CategoryResult {
    pub id: String,
    pub name: String,
    pub desc: String,
    pub risk: String,
    pub file_count: u64,
    pub total_size: u64,
    pub needs_admin: bool,
    /// The category cannot be cleaned now (missing rights): its box is disabled.
    pub disabled: bool,
    pub warning: Option<String>,
}

impl CategoryResult {
    /// A field-by-field copy.
    pub fn copy(&self) -> (r: CategoryResult)
        ensures
            r == *self,
    {
        let warning = match &self.warning {
            Some(w) => Some(w.clone()),
            None => None,
        };
        CategoryResult {
            id: self.id.clone(),
            name: self.name.clone(),
            desc: self.desc.clone(),
            risk: self.risk.clone(),
            file_count: self.file_count,
            total_size: self.total_size,
            needs_admin: self.needs_admin,
            disabled: self.disabled,
            warning,
        }
    }
}

/// `parts` joined with `sep` between them.
pub open spec fn join_with(parts: Seq<Seq<char>>, sep: Seq<char>) -> Seq<char>
    decreases parts.len(),
{
    if parts.len() == 0 {
        Seq::empty()
    } else if parts.len() == 1 {
        parts[0]
    } else {
        join_with(parts.drop_last(), sep) + sep + parts.last()
    }
}

fn join_strings(parts: &Vec<String>, sep: &str) -> (r: Vec<char>)
    ensures
        r@ == join_with(parts@.map_values(|s: String| s@), sep@),
{
    let ghost pv = parts@.map_values(|s: String| s@);
    let mut out: Vec<char> = Vec::new();
    let sp = str_chars(sep);
    let mut i: usize = 0;
    while i < parts.len()
        invariant
            i <= parts.len(),
            pv == parts@.map_values(|s: String| s@),
            sp@ == sep@,
            out@ == join_with(pv.take(i as int), sep@),
        decreases parts.len() - i,
    {
        assert(pv.take(i + 1).drop_last() =~= pv.take(i as int));
        assert(pv.take(i + 1).last() == parts@[i as int]@);
        if i > 0 {
            out.extend_from_slice(&sp);
        }
        let c = str_chars(parts[i].as_str());
        out.extend_from_slice(&c);
        proof {
            if i == 0 {
                assert(pv.take(1) =~= seq![parts@[0]@]);
            }
        }
        i = i + 1;
    }
    assert(pv.take(parts.len() as int) =~= pv);
    out
}

/// The warning shown for a category and whether it is disabled: the browser
/// cache warns while browsers run; the update cache is disabled without
/// administrator rights and warns while the update service runs; system logs
/// warn without administrator rights.
pub open spec fn warnings_spec(id: Seq<char>, is_admin: bool, browsers: Seq<Seq<char>>, wuauserv: bool) -> (Option<Seq<char>>, bool) {
    if id == "browser"@ {
        if browsers.len() == 0 {
            (None, false)
        } else {
            (Some("检测到浏览器正在运行（"@ + join_with(browsers, "、"@) + "），运行中被锁定的缓存文件将自动跳过"@), false)
        }
    } else if id == "update"@ {
        if !is_admin {
            (Some("需要管理员权限才能清理 Windows 更新缓存"@), true)
        } else if wuauserv {
            (Some("Windows 更新服务运行中，被占用的文件将自动跳过"@), false)
        } else {
            (None, false)
        }
    } else if id == "logs"@ && !is_admin {
        (Some("非管理员模式下部分系统日志无法删除，将自动跳过"@), false)
    } else {
        (None, false)
    }
}

fn same_text(a: &str, b: &str) -> (r: bool)
    ensures
        r == (a@ == b@),
{
    let x = str_chars(a);
    let y = str_chars(b);
    if x.len() != y.len() {
        return false;
    }
    let r = starts_with(&x, &y);
    assert(r ==> x@ =~= y@) by {
        if r {
            assert(x@.take(y@.len() as int) =~= x@);
        }
    }
    assert(x@ == y@ ==> r) by {
        if x@ == y@ {
            assert(x@.take(y@.len() as int) =~= x@);
        }
    }
    r
}

/// The warning and disabled flag of a category (see `warnings_spec`).
pub fn warnings_for(id: &str, is_admin: bool, browsers: &Vec<String>, wuauserv: bool) -> (r: (Option<String>, bool))
    ensures
        r.1 == warnings_spec(id@, is_admin, browsers@.map_values(|s: String| s@), wuauserv).1,
        match r.0 {
            Some(w) => warnings_spec(id@, is_admin, browsers@.map_values(|s: String| s@), wuauserv).0 == Some(w@),
            None => warnings_spec(id@, is_admin, browsers@.map_values(|s: String| s@), wuauserv).0 is None,
        },
{
    if same_text(id, "browser") {
        if browsers.len() == 0 {
            (None, false)
        } else {
            let mut v = str_chars("检测到浏览器正在运行（");
            let j = join_strings(browsers, "、");
            v.extend_from_slice(&j);
            let t = str_chars("），运行中被锁定的缓存文件将自动跳过");
            v.extend_from_slice(&t);
            (Some(string_from_chars(&v)), false)
        }
    } else if same_text(id, "update") {
        if !is_admin {
            (Some("需要管理员权限才能清理 Windows 更新缓存".to_owned()), true)
        } else if wuauserv {
            (Some("Windows 更新服务运行中，被占用的文件将自动跳过".to_owned()), false)
        } else {
            (None, false)
        }
    } else if same_text(id, "logs") && !is_admin {
        (Some("非管理员模式下部分系统日志无法删除，将自动跳过".to_owned()), false)
    } else {
        (None, false)
    }
}

/// Lower-case name of a risk level.
pub open spec fn risk_name(r: Risk) -> Seq<char> {
    match r {
        Risk::Low => "low"@,
        Risk::Medium => "medium"@,
    }
}

/// Total size of the files found.
pub open spec fn entries_size(es: Seq<FileEntry>) -> int
    decreases es.len(),
{
    if es.len() == 0 { 0 } else { entries_size(es.drop_last()) + es.last().size }
}

proof fn lemma_entries_size_prefix(es: Seq<FileEntry>, k: int)
    requires
        0 <= k <= es.len(),
    ensures
        0 <= entries_size(es.take(k)) <= entries_size(es),
    decreases es.len(),
{
    if k < es.len() {
        assert(es.drop_last().take(k) =~= es.take(k));
        lemma_entries_size_prefix(es.drop_last(), k);
    } else {
        assert(es.take(k) =~= es);
        if es.len() > 0 {
            lemma_entries_size_prefix(es.drop_last(), es.len() - 1);
            assert(es.drop_last().take(es.len() - 1) =~= es.drop_last());
        }
    }
}

/// The summary of a scanned category: its description, the number and total
/// size of the files found, and its warning.
pub fn category_result(cat: &CategoryDef, entries: &Vec<FileEntry>, is_admin: bool, browsers: &Vec<String>, wuauserv: bool) -> (r: CategoryResult)
    requires
        entries_size(entries@) <= u64::MAX,
    ensures
        r.id@ == cat.id@ && r.name@ == cat.name@ && r.desc@ == cat.desc@,
        r.risk@ == risk_name(cat.risk),
        r.file_count == entries.len(),
        r.total_size == entries_size(entries@),
        r.needs_admin == cat.needs_admin,
        r.disabled == warnings_spec(cat.id@, is_admin, browsers@.map_values(|s: String| s@), wuauserv).1,
        match r.warning {
            Some(w) => warnings_spec(cat.id@, is_admin, browsers@.map_values(|s: String| s@), wuauserv).0 == Some(w@),
            None => warnings_spec(cat.id@, is_admin, browsers@.map_values(|s: String| s@), wuauserv).0 is None,
        },
{
    let mut total: u64 = 0;
    let mut i: usize = 0;
    while i < entries.len()
        invariant
            i <= entries.len(),
            entries_size(entries@) <= u64::MAX,
            total == entries_size(entries@.take(i as int)),
        decreases entries.len() - i,
    {
        proof {
            assert(entries@.take(i + 1).drop_last() =~= entries@.take(i as int));
            lemma_entries_size_prefix(entries@, i + 1);
        }
        total = total + entries[i].size;
        i = i + 1;
    }
    assert(entries@.take(entries.len() as int) =~= entries@);
    let (warning, disabled) = warnings_for(cat.id, is_admin, browsers, wuauserv);
    let risk = match cat.risk {
        Risk::Low => "low".to_owned(),
        Risk::Medium => "medium".to_owned(),
    };
    CategoryResult {
        id: cat.id.to_owned(),
        name: cat.name.to_owned(),
        desc: cat.desc.to_owned(),
        risk,
        file_count: entries.len() as u64,
        total_size: total,
        needs_admin: cat.needs_admin,
        disabled,
        warning,
    }
}

} // verus!

verus! {

/// The ids of the categories, in display order.
pub open spec fn category_ids() -> Seq<Seq<char>> {
    seq!["temp"@, "recycle"@, "browser"@, "update"@, "logs"@, "thumbnail"@]
}

/// A category to scan and its roots on the selected drive.
pub struct ScanTarget {
    /// Position of the category in `categories()`.
    pub index: usize,
    pub roots: Vec<String>,
}

/// The categories a scan of `drive` covers, in display order: those with at
/// least one root on that drive (system-wide categories have none off the
/// system drive, so nothing of drive C mixes into another drive's results).
pub fn scan_plan(drive: &str, env: &crate::category::RootEnv) -> (r: Vec<ScanTarget>)
    ensures
        forall|a: int, b: int| 0 <= a < b < r.len() ==> r@[a].index < r@[b].index,
        forall|t: int| 0 <= t < r.len() ==> (#[trigger] r@[t]).index < 6
            && r@[t].roots@.map_values(|s: String| s@) == crate::category::roots_for_spec(category_ids()[r@[t].index as int], drive@, *env)
            && r@[t].roots@.len() > 0,
        forall|k: int| 0 <= k < 6 && crate::category::roots_for_spec(category_ids()[k], drive@, *env).len() > 0
            ==> exists|t: int| 0 <= t < r.len() && #[trigger] r@[t].index == k,
{
    let cats = crate::category::categories();
    let mut r: Vec<ScanTarget> = Vec::new();
    let mut k: usize = 0;
    while k < cats.len()
        invariant
            k <= cats.len(),
            cats.len() == 6,
            forall|i: int| 0 <= i < 6 ==> #[trigger] cats@[i].id@ == category_ids()[i],
            forall|a: int, b: int| 0 <= a < b < r.len() ==> r@[a].index < r@[b].index,
            forall|t: int| 0 <= t < r.len() ==> (#[trigger] r@[t]).index < k
                && r@[t].roots@.map_values(|s: String| s@) == crate::category::roots_for_spec(category_ids()[r@[t].index as int], drive@, *env)
                && r@[t].roots@.len() > 0,
            forall|q: int| 0 <= q < k && crate::category::roots_for_spec(category_ids()[q], drive@, *env).len() > 0
                ==> exists|t: int| 0 <= t < r.len() && #[trigger] r@[t].index == q,
        decreases cats.len() - k,
    {
        proof {
            reveal_strlit("temp");
            reveal_strlit("recycle");
            reveal_strlit("browser");
            reveal_strlit("update");
            reveal_strlit("logs");
            reveal_strlit("thumbnail");
        }
        assert(cats@[k as int].id@ == category_ids()[k as int]);
        let roots = crate::category::roots_for(cats[k].id, drive, env);
        if roots.len() > 0 {
            let ghost before = r@;
            r.push(ScanTarget { index: k, roots });
            proof {
                assert forall|q: int| 0 <= q < k + 1 && crate::category::roots_for_spec(category_ids()[q], drive@, *env).len() > 0
                    implies exists|t: int| 0 <= t < r.len() && #[trigger] r@[t].index == q by {
                    if q < k {
                        let t = choose|t: int| 0 <= t < before.len() && #[trigger] before[t].index == q;
                        assert(r@[t] == before[t]);
                    } else {
                        assert(r@[r.len() - 1].index == q);
                    }
                }
            }
        }
        k = k + 1;
    }
    r
}

/// The files found for one category.
pub struct CategoryFiles {
    pub id: String,
    pub files: Vec<FileEntry>,
}

/// A category scan: the files found per category and their summaries.
pub struct ScanSession {
    pub id: u32,
    pub drive: String,
    pub files: Vec<CategoryFiles>,
    pub results: Vec<CategoryResult>,
    pub cancelled: bool,
    pub done: bool,
}

/// Sum of the file counts of the results.
pub open spec fn found_files(rs: Seq<CategoryResult>) -> int
    decreases rs.len(),
{
    if rs.len() == 0 { 0 } else { found_files(rs.drop_last()) + rs.last().file_count }
}

/// Sum of the sizes of the results.
pub open spec fn found_bytes(rs: Seq<CategoryResult>) -> int
    decreases rs.len(),
{
    if rs.len() == 0 { 0 } else { found_bytes(rs.drop_last()) + rs.last().total_size }
}

proof fn lemma_found_prefix(rs: Seq<CategoryResult>, k: int)
    requires
        0 <= k <= rs.len(),
    ensures
        0 <= found_files(rs.take(k)) <= found_files(rs),
        0 <= found_bytes(rs.take(k)) <= found_bytes(rs),
    decreases rs.len(),
{
    if k < rs.len() {
        assert(rs.drop_last().take(k) =~= rs.take(k));
        lemma_found_prefix(rs.drop_last(), k);
    } else {
        assert(rs.take(k) =~= rs);
        if rs.len() > 0 {
            lemma_found_prefix(rs.drop_last(), rs.len() - 1);
            assert(rs.drop_last().take(rs.len() - 1) =~= rs.drop_last());
        }
    }
}

impl ScanSession {
    /// A scan that has found nothing yet.
    pub fn new(id: u32, drive: String) -> (s: ScanSession)
        ensures
            s.id == id && s.drive == drive,
            s.files@.len() == 0 && s.results@.len() == 0,
            !s.cancelled && !s.done,
    {
        ScanSession { id, drive, files: Vec::new(), results: Vec::new(), cancelled: false, done: false }
    }

    /// Records a scanned category: its summary and its files.
    pub fn add_category(&mut self, cat: &CategoryDef, entries: Vec<FileEntry>, is_admin: bool, browsers: &Vec<String>, wuauserv: bool)
        requires
            entries_size(entries@) <= u64::MAX,
        ensures
            final(self).id == old(self).id && final(self).drive == old(self).drive,
            final(self).cancelled == old(self).cancelled && final(self).done == old(self).done,
            final(self).results@.len() == old(self).results@.len() + 1,
            final(self).results@.drop_last() == old(self).results@,
            final(self).files@.len() == old(self).files@.len() + 1,
            final(self).files@.drop_last() == old(self).files@,
            final(self).files@.last().id@ == cat.id@,
            final(self).files@.last().files@ == entries@,
            ({
                let r = final(self).results@.last();
                &&& r.id@ == cat.id@ && r.name@ == cat.name@ && r.desc@ == cat.desc@
                &&& r.risk@ == risk_name(cat.risk)
                &&& r.file_count == entries@.len()
                &&& r.total_size == entries_size(entries@)
                &&& r.needs_admin == cat.needs_admin
                &&& r.disabled == warnings_spec(cat.id@, is_admin, browsers@.map_values(|s: String| s@), wuauserv).1
                &&& match r.warning {
                    Some(w) => warnings_spec(cat.id@, is_admin, browsers@.map_values(|s: String| s@), wuauserv).0 == Some(w@),
                    None => warnings_spec(cat.id@, is_admin, browsers@.map_values(|s: String| s@), wuauserv).0 is None,
                }
            }),
    {
        let r = category_result(cat, &entries, is_admin, browsers, wuauserv);
        self.results.push(r);
        self.files.push(CategoryFiles { id: cat.id.to_owned(), files: entries });
        assert(self.results@.drop_last() =~= old(self).results@);
        assert(self.files@.drop_last() =~= old(self).files@);
    }

    /// Files and bytes found so far (for progress reports).
    pub fn found_totals(&self) -> (r: (u64, u64))
        requires
            found_files(self.results@) <= u64::MAX,
            found_bytes(self.results@) <= u64::MAX,
        ensures
            r.0 == found_files(self.results@),
            r.1 == found_bytes(self.results@),
    {
        let mut f: u64 = 0;
        let mut b: u64 = 0;
        let mut i: usize = 0;
        while i < self.results.len()
            invariant
                i <= self.results.len(),
                found_files(self.results@) <= u64::MAX,
                found_bytes(self.results@) <= u64::MAX,
                f == found_files(self.results@.take(i as int)),
                b == found_bytes(self.results@.take(i as int)),
            decreases self.results.len() - i,
        {
            proof {
                assert(self.results@.take(i + 1).drop_last() =~= self.results@.take(i as int));
                lemma_found_prefix(self.results@, i + 1);
            }
            f = f + self.results[i].file_count;
            b = b + self.results[i].total_size;
            i = i + 1;
        }
        assert(self.results@.take(self.results.len() as int) =~= self.results@);
        (f, b)
    }

    /// Marks the scan finished, noting whether it was cancelled.
    pub fn finish(&mut self, cancelled: bool)
        ensures
            final(self).done && final(self).cancelled == cancelled,
            final(self).id == old(self).id && final(self).drive == old(self).drive,
            final(self).files == old(self).files && final(self).results == old(self).results,
    {
        self.done = true;
        self.cancelled = cancelled;
    }

    /// Copies of the files found for a category (`None` when it was not scanned).
    pub fn files_of(&self, id: &str) -> (r: Option<Vec<FileEntry>>)
        ensures
            match r {
                Some(v) => exists|k: int| 0 <= k < self.files.len() && #[trigger] self.files@[k].id@ == id@
                    && v@ == self.files@[k].files@
                    && forall|j: int| 0 <= j < k ==> self.files@[j].id@ != id@,
                None => forall|k: int| 0 <= k < self.files.len() ==> #[trigger] self.files@[k].id@ != id@,
            },
    {
        let mut k: usize = 0;
        while k < self.files.len()
            invariant
                k <= self.files.len(),
                forall|j: int| 0 <= j < k ==> #[trigger] self.files@[j].id@ != id@,
            decreases self.files.len() - k,
        {
            if same_text(self.files[k].id.as_str(), id) {
                let src = &self.files[k].files;
                let mut v: Vec<FileEntry> = Vec::new();
                let mut i: usize = 0;
                while i < src.len()
                    invariant
                        i <= src.len(),
                        v@ == src@.take(i as int),
                    decreases src.len() - i,
                {
                    v.push(src[i].copy());
                    assert(src@.take(i + 1) =~= src@.take(i as int).push(src@[i as int]));
                    i = i + 1;
                }
                assert(src@.take(src.len() as int) =~= src@);
                return Some(v);
            }
            k = k + 1;
        }
        None
    }
}

/// Asks a category scan to stop.
pub fn cancel_scan(state: &mut AppState, session: u32)
    requires
        old(state).wf(),
    ensures
        cancel_requested(*old(state), *final(state), session),
{
    state.request_cancel(session);
}

} // verus!
