//! The cleaning categories, the directories each one scans, and which file
//! names each one may remove.
//!
//! Safety model: every path that a clean removes must lie under a root of its
//! category; the roots themselves are the exceptions to the protected system
//! directories (such as `C:\Windows\Temp`).
use vstd::prelude::*;

use crate::text::{ends_with, is_prefix, is_suffix, lower_chars, lower_of, starts_with, str_chars, string_from_chars};
use crate::util::is_sep;

verus! {

/// Risk level shown for a category.
#[derive(PartialEq, Eq, Structural, Clone, Copy, Debug)]
pub enum Risk {
    Low,
    Medium,
}

/// Which files of a category root are removable.
#[derive(Clone, Copy)]
pub enum NameMatch {
    /// Every file under the roots.
    Any,
    /// Files whose lower-cased name starts with one of the prefixes and ends in `.db`
    /// (thumbnail and icon caches).
    CacheDb(&'static [&'static str]),
}

/// A cleaning category.
pub struct CategoryDef {
    pub id: &'static str,
    pub name: &'static str,
    pub desc: &'static str,
    pub risk: Risk,
    pub needs_admin: bool,
    pub name_match: NameMatch,
}

/// The six categories, in display order.
pub fn categories() -> (r: Vec<CategoryDef>)
    ensures
        r.len() == 6,
        r@[0].id@ == "temp"@,
        r@[1].id@ == "recycle"@,
        r@[2].id@ == "browser"@,
        r@[3].id@ == "update"@,
        r@[4].id@ == "logs"@,
        r@[5].id@ == "thumbnail"@,
        r@[3].risk == Risk::Medium && r@[3].needs_admin,
        forall|i: int| 0 <= i < 6 && i != 3 ==> #[trigger] r@[i].risk == Risk::Low && !r@[i].needs_admin,
        forall|i: int| 0 <= i < 5 ==> #[trigger] r@[i].name_match is Any,
        r@[5].name_match matches NameMatch::CacheDb(p) && p@.len() == 2 && p@[0]@ == "thumbcache_"@ && p@[1]@ == "iconcache_"@,
{
    let mut v: Vec<CategoryDef> = Vec::new();
    v.push(CategoryDef {
        id: "temp",
        name: "系统临时文件",
        desc: "%TEMP% 与 C:\\Windows\\Temp 中的临时文件",
        risk: Risk::Low,
        needs_admin: false,
        name_match: NameMatch::Any,
    });
    v.push(CategoryDef {
        id: "recycle",
        name: "回收站",
        desc: "所选盘符回收站中的已删除文件（移入恢复区，仍可恢复）",
        risk: Risk::Low,
        needs_admin: false,
        name_match: NameMatch::Any,
    });
    v.push(CategoryDef {
        id: "browser",
        name: "浏览器缓存",
        desc: "Chrome / Edge / Firefox 的网页缓存",
        risk: Risk::Low,
        needs_admin: false,
        name_match: NameMatch::Any,
    });
    v.push(CategoryDef {
        id: "update",
        name: "Windows 更新缓存",
        desc: "C:\\Windows\\SoftwareDistribution\\Download 更新下载缓存",
        risk: Risk::Medium,
        needs_admin: true,
        name_match: NameMatch::Any,
    });
    v.push(CategoryDef {
        id: "logs",
        name: "系统日志",
        desc: "C:\\Windows\\Logs 系统日志文件",
        risk: Risk::Low,
        needs_admin: false,
        name_match: NameMatch::Any,
    });
    let prefixes: &'static [&'static str] = &["thumbcache_", "iconcache_"];
    v.push(CategoryDef {
        id: "thumbnail",
        name: "缩略图缓存",
        desc: "资源管理器缩略图与图标缓存（重建后自动生成）",
        risk: Risk::Low,
        needs_admin: false,
        name_match: NameMatch::CacheDb(prefixes),
    });
    v
}

/// Some prefix of the list is a prefix of `lower`.
pub open spec fn any_prefix(prefixes: Seq<&'static str>, lower: Seq<char>) -> bool {
    exists|i: int| 0 <= i < prefixes.len() && is_prefix(#[trigger] prefixes[i]@, lower)
}

/// Whether a file of the category may be removed, by its name.
pub open spec fn matches_name_spec(m: NameMatch, file_name: Seq<char>) -> bool {
    match m {
        NameMatch::Any => true,
        NameMatch::CacheDb(prefixes) => {
            let lower = lower_chars(file_name);
            is_suffix(".db"@, lower) && any_prefix(prefixes@, lower)
        },
    }
}

/// Whether the category's name rule accepts the file (thumbnail caches only
/// clear `thumbcache_*.db` and `iconcache_*.db`; other categories take every file).
pub fn matches_name(cat: &CategoryDef, file_name: &str) -> (b: bool)
    ensures
        b == matches_name_spec(cat.name_match, file_name@),
{
    let s = str_chars(file_name);
    let lower = lower_of(&s);
    match cat.name_match {
        NameMatch::Any => true,
        NameMatch::CacheDb(prefixes) => {
            let db = str_chars(".db");
            if !ends_with(&lower, &db) {
                return false;
            }
            let mut i: usize = 0;
            while i < prefixes.len()
                invariant
                    i <= prefixes@.len(),
                    cat.name_match == NameMatch::CacheDb(prefixes),
                    lower@ == lower_chars(file_name@),
                    is_suffix(".db"@, lower@),
                    forall|k: int| 0 <= k < i ==> !is_prefix(#[trigger] prefixes@[k]@, lower@),
                decreases prefixes.len() - i,
            {
                let p = str_chars(prefixes[i]);
                if starts_with(&lower, &p) {
                    assert(prefixes@[i as int]@ == p@);
                    assert(is_prefix(prefixes@[i as int]@, lower@));
                    return true;
                }
                i = i + 1;
            }
            false
        },
    }
}

/// ASCII-case-insensitive equality of two strings (std `eq_ignore_ascii_case`).
pub open spec fn eq_ignore_ascii_case_spec(a: Seq<char>, b: Seq<char>) -> bool {
    a.len() == b.len() && forall|i: int| 0 <= i < a.len() ==> #[trigger] ascii_lower(a[i]) == ascii_lower(b[i])
}

/// ASCII lower case of a character (others unchanged).
pub open spec fn ascii_lower(c: char) -> char {
    if 'A' <= c && c <= 'Z' { ((c as u32) + 32) as char } else { c }
}

fn ascii_lower_exec(c: char) -> (r: char)
    ensures
        r == ascii_lower(c),
{
    if 'A' <= c && c <= 'Z' {
        ((c as u8) + 32) as char
    } else {
        c
    }
}

/// Equality ignoring ASCII case (std `eq_ignore_ascii_case`).
pub fn eq_ignore_ascii_case(a: &[char], b: &[char]) -> (r: bool)
    ensures
        r == eq_ignore_ascii_case_spec(a@, b@),
{
    if a.len() != b.len() {
        return false;
    }
    let mut i: usize = 0;
    while i < a.len()
        invariant
            a.len() == b.len(),
            i <= a.len(),
            forall|k: int| 0 <= k < i ==> #[trigger] ascii_lower(a@[k]) == ascii_lower(b@[k]),
        decreases a.len() - i,
    {
        if ascii_lower_exec(a[i]) != ascii_lower_exec(b[i]) {
            return false;
        }
        i = i + 1;
    }
    true
}

/// `s` without its trailing `c` characters (std `trim_end_matches`).
pub open spec fn trim_end_char(s: Seq<char>, c: char) -> Seq<char>
    decreases s.len(),
{
    if s.len() > 0 && s.last() == c { trim_end_char(s.drop_last(), c) } else { s }
}

/// `s` without its trailing run of `c` (std `trim_end_matches` with a character).
pub fn trim_end_char_exec(s: &[char], c: char) -> (r: Vec<char>)
    ensures
        r@ == trim_end_char(s@, c),
{
    let mut b = s.len();
    assert(s@.take(b as int) =~= s@);
    while b > 0 && s[b - 1] == c
        invariant
            b <= s.len(),
            trim_end_char(s@.take(b as int), c) == trim_end_char(s@, c),
        decreases b,
    {
        assert(s@.take(b as int).drop_last() =~= s@.take(b - 1));
        b = b - 1;
    }
    crate::text::slice_of(s, 0, b)
}

/// `base` joined with a relative path, as `PathBuf::join` does on Windows: a
/// `\` is inserted unless `base` is empty, already ends in a separator, or is a
/// bare drive such as `C:`.
pub open spec fn join_spec(base: Seq<char>, rel: Seq<char>) -> Seq<char> {
    let bare_drive = base.len() == 2 && crate::util::is_ascii_alpha(base[0]) && base[1] == ':';
    if base.len() == 0 || is_sep(base.last()) || bare_drive { base + rel } else { base + seq!['\\'] + rel }
}

/// `base` joined with `rel` as `Path::join` does on Windows (see `join_spec`).
pub fn join_path(base: &str, rel: &str) -> (r: String)
    ensures
        r@ == join_spec(base@, rel@),
{
    let b = str_chars(base);
    let r = str_chars(rel);
    let bare = b.len() == 2 && (('a' <= b[0] && b[0] <= 'z') || ('A' <= b[0] && b[0] <= 'Z')) && b[1] == ':';
    let mut out = b.clone();
    if !(b.len() == 0 || b[b.len() - 1] == '\\' || b[b.len() - 1] == '/' || bare) {
        out.push('\\');
    }
    out.extend_from_slice(&r);
    proof {
        if !(b@.len() == 0 || is_sep(b@.last()) || bare) {
            assert(out@ =~= b@ + seq!['\\'] + r@);
        } else {
            assert(out@ =~= b@ + r@);
        }
    }
    string_from_chars(&out)
}

/// What the root lists of the categories depend on besides the selected drive:
/// the environment's directories and the browser profile directories found on disk.
pub struct RootEnv {
    /// `%LOCALAPPDATA%`, or `C:\Users\Public\AppData\Local` when unset.
    pub local_app_data: String,
    /// `%SystemDrive%`, or `C:` when unset.
    pub system_drive: String,
    /// `%TEMP%`, or `C:\Windows\Temp` when unset.
    pub temp: String,
    /// Browser cache directories (see `browser_cache_dirs`).
    pub browser_roots: Vec<String>,
}

/// The selected drive letter names the system drive (ignoring ASCII case and trailing `:`).
pub open spec fn is_system_drive(drive: Seq<char>, system_drive: Seq<char>) -> bool {
    eq_ignore_ascii_case_spec(drive, trim_end_char(system_drive, ':'))
}

/// The directories scanned for a category on the selected drive (`drive` is a
/// letter such as `C`).  System-wide categories exist only on the system drive;
/// on another drive they have no roots, so that nothing of drive C mixes into its
/// results.  The recycle bin follows the selected drive.
pub open spec fn roots_for_spec(id: Seq<char>, drive: Seq<char>, env: RootEnv) -> Seq<Seq<char>> {
    let sys = is_system_drive(drive, env.system_drive@);
    if id == "temp"@ && sys {
        seq![env.temp@, "C:\\Windows\\Temp"@]
    } else if id == "recycle"@ {
        seq![drive + ":\\$Recycle.Bin"@]
    } else if id == "browser"@ && sys {
        env.browser_roots@.map_values(|s: String| s@)
    } else if id == "update"@ && sys {
        seq!["C:\\Windows\\SoftwareDistribution\\Download"@]
    } else if id == "logs"@ && sys {
        seq!["C:\\Windows\\Logs"@]
    } else if id == "thumbnail"@ && sys {
        seq![join_spec(env.local_app_data@, "Microsoft\\Windows\\Explorer"@)]
    } else {
        Seq::empty()
    }
}

fn eq_str(a: &str, b: &str) -> (r: bool)
    ensures
        r == (a@ == b@),
{
    let x = str_chars(a);
    let y = str_chars(b);
    if x.len() != y.len() {
        return false;
    }
    let r = starts_with(&x, &y);
    assert(r ==> x@ =~= y@) by {
        if r {
            assert(x@.take(y@.len() as int) =~= x@);
        }
    }
    assert(x@ == y@ ==> r) by {
        if x@ == y@ {
            assert(x@.take(y@.len() as int) =~= x@);
        }
    }
    r
}

/// The scan roots of a category on the selected drive (see `roots_for_spec`).
pub fn roots_for(id: &str, drive: &str, env: &RootEnv) -> (r: Vec<String>)
    ensures
        r@.map_values(|s: String| s@) == roots_for_spec(id@, drive@, *env),
{
    let d = str_chars(drive);
    let sd = str_chars(env.system_drive.as_str());
    let sd_trim = trim_end_char_exec(&sd, ':');
    let sys = eq_ignore_ascii_case(&d, &sd_trim);
    let mut out: Vec<String> = Vec::new();
    if eq_str(id, "temp") && sys {
        out.push(env.temp.clone());
        out.push("C:\\Windows\\Temp".to_owned());
        assert(out@.map_values(|s: String| s@) =~= seq![env.temp@, "C:\\Windows\\Temp"@]);
    } else if eq_str(id, "recycle") {
        let mut p = crate::text::slice_of(&d, 0, d.len());
        let tail = str_chars(":\\$Recycle.Bin");
        p.extend_from_slice(&tail);
        assert(d@.subrange(0, d@.len() as int) =~= d@);
        assert(p@ =~= drive@ + ":\\$Recycle.Bin"@);
        let ps = string_from_chars(&p);
        out.push(ps);
        assert(out@.map_values(|s: String| s@) =~= seq![drive@ + ":\\$Recycle.Bin"@]);
    } else if eq_str(id, "browser") && sys {
        let mut i: usize = 0;
        while i < env.browser_roots.len()
            invariant
                i <= env.browser_roots.len(),
                out@.map_values(|s: String| s@) == env.browser_roots@.map_values(|s: String| s@).take(i as int),
            decreases env.browser_roots.len() - i,
        {
            out.push(env.browser_roots[i].clone());
            assert(env.browser_roots@.map_values(|s: String| s@).take(i + 1) =~= env.browser_roots@.map_values(|s: String| s@).take(i as int).push(env.browser_roots@[i as int]@));
            assert(out@.map_values(|s: String| s@) =~= env.browser_roots@.map_values(|s: String| s@).take(i + 1));
            i = i + 1;
        }
        assert(env.browser_roots@.map_values(|s: String| s@).take(i as int) =~= env.browser_roots@.map_values(|s: String| s@));
    } else if eq_str(id, "update") && sys {
        out.push("C:\\Windows\\SoftwareDistribution\\Download".to_owned());
        assert(out@.map_values(|s: String| s@) =~= seq!["C:\\Windows\\SoftwareDistribution\\Download"@]);
    } else if eq_str(id, "logs") && sys {
        out.push("C:\\Windows\\Logs".to_owned());
        assert(out@.map_values(|s: String| s@) =~= seq!["C:\\Windows\\Logs"@]);
    } else if eq_str(id, "thumbnail") && sys {
        out.push(join_path(env.local_app_data.as_str(), "Microsoft\\Windows\\Explorer"));
        assert(out@.map_values(|s: String| s@) =~= seq![join_spec(env.local_app_data@, "Microsoft\\Windows\\Explorer"@)]);
    } else {
        assert(out@.map_values(|s: String| s@) =~= Seq::<Seq<char>>::empty());
    }
    out
}

/// A browser profile directory worth clearing, by its lower-cased name:
/// `default`, `profile ...` or `... profile`, but not `crashpad`,
/// `browsermetrics`, `safes browsing`, `extensions` or `system profile`.
pub open spec fn is_profile_dir_spec(lower: Seq<char>) -> bool {
    let excluded = lower == "crashpad"@ || lower == "browsermetrics"@ || lower == "safes browsing"@
        || lower == "extensions"@ || lower == "system profile"@;
    !excluded && (lower == "default"@ || is_prefix("profile "@, lower) || is_suffix(" profile"@, lower))
}

/// Whether a Chrome/Edge `User Data` subdirectory is a profile whose caches are cleared.
pub fn is_profile_dir(name: &str) -> (b: bool)
    ensures
        b == is_profile_dir_spec(lower_chars(name@)),
{
    let s = str_chars(name);
    let l = lower_of(&s);
    let ls = string_from_chars(&l);
    let n = ls.as_str();
    let excluded = eq_str(n, "crashpad") || eq_str(n, "browsermetrics") || eq_str(n, "safes browsing")
        || eq_str(n, "extensions") || eq_str(n, "system profile");
    if excluded {
        return false;
    }
    let pp = str_chars("profile ");
    let sp = str_chars(" profile");
    eq_str(n, "default") || starts_with(&l, &pp) || ends_with(&l, &sp)
}

/// The cache directories of a Chrome/Edge profile directory.
pub fn profile_cache_dirs(profile_dir: &str) -> (r: Vec<String>)
    ensures
        r@.map_values(|s: String| s@) == seq![
            join_spec(profile_dir@, "Cache"@),
            join_spec(profile_dir@, "Cache\\Cache_Data"@),
            join_spec(profile_dir@, "Code Cache"@),
            join_spec(profile_dir@, "GPUCache"@),
        ],
{
    let mut r: Vec<String> = Vec::new();
    r.push(join_path(profile_dir, "Cache"));
    r.push(join_path(profile_dir, "Cache\\Cache_Data"));
    r.push(join_path(profile_dir, "Code Cache"));
    r.push(join_path(profile_dir, "GPUCache"));
    assert(r@.map_values(|s: String| s@) =~= seq![
        join_spec(profile_dir@, "Cache"@),
        join_spec(profile_dir@, "Cache\\Cache_Data"@),
        join_spec(profile_dir@, "Code Cache"@),
        join_spec(profile_dir@, "GPUCache"@),
    ]);
    r
}

/// Drive isolation: on a drive other than the system drive, every category
/// but the recycle bin has no roots, so nothing of the system drive mixes into
/// that drive's results; the recycle bin is always the selected drive's own.
pub proof fn other_drives_scan_only_their_recycle_bin(id: Seq<char>, drive: Seq<char>, env: RootEnv)
    ensures
        !is_system_drive(drive, env.system_drive@) && id != "recycle"@ ==> roots_for_spec(id, drive, env).len() == 0,
        id == "recycle"@ ==> roots_for_spec(id, drive, env) == seq![drive + ":\\$Recycle.Bin"@],
{
    reveal_strlit("temp");
    reveal_strlit("recycle");
    assert("temp"@.len() == 4 && "recycle"@.len() == 7);
    if id == "recycle"@ {
        assert(id != "temp"@);
    }
}


/// The fixed scan roots of each category on the system drive: temp is
/// `%TEMP%` and `C:\Windows\Temp`; the recycle bin is the drive's own
/// `$Recycle.Bin`; browser caches are the browser cache directories found;
/// Windows Update is its download cache `C:\Windows\SoftwareDistribution\Download`
/// only (never the rest of the update store); logs are `C:\Windows\Logs`;
/// thumbnails are `%LOCALAPPDATA%\Microsoft\Windows\Explorer`. Any other
/// category id has no roots.
pub proof fn system_drive_category_roots(id: Seq<char>, drive: Seq<char>, env: RootEnv)
    requires
        is_system_drive(drive, env.system_drive@),
    ensures
        roots_for_spec("temp"@, drive, env) == seq![env.temp@, "C:\\Windows\\Temp"@],
        roots_for_spec("recycle"@, drive, env) == seq![drive + ":\\$Recycle.Bin"@],
        roots_for_spec("browser"@, drive, env) == env.browser_roots@.map_values(|s: String| s@),
        roots_for_spec("update"@, drive, env) == seq!["C:\\Windows\\SoftwareDistribution\\Download"@],
        roots_for_spec("logs"@, drive, env) == seq!["C:\\Windows\\Logs"@],
        roots_for_spec("thumbnail"@, drive, env) == seq![join_spec(env.local_app_data@, "Microsoft\\Windows\\Explorer"@)],
        id != "temp"@ && id != "recycle"@ && id != "browser"@ && id != "update"@ && id != "logs"@
            && id != "thumbnail"@ ==> roots_for_spec(id, drive, env).len() == 0,
{
    reveal_strlit("temp");
    reveal_strlit("recycle");
    reveal_strlit("browser");
    reveal_strlit("update");
    reveal_strlit("logs");
    reveal_strlit("thumbnail");
    assert("temp"@.len() == 4 && "temp"@[0] == 't' && "temp"@[1] == 'e' && "temp"@[2] == 'm' && "temp"@[3] == 'p');
    assert("recycle"@.len() == 7 && "recycle"@[0] == 'r' && "recycle"@[1] == 'e' && "recycle"@[2] == 'c' && "recycle"@[3] == 'y' && "recycle"@[4] == 'c' && "recycle"@[5] == 'l' && "recycle"@[6] == 'e');
    assert("browser"@.len() == 7 && "browser"@[0] == 'b' && "browser"@[1] == 'r' && "browser"@[2] == 'o' && "browser"@[3] == 'w' && "browser"@[4] == 's' && "browser"@[5] == 'e' && "browser"@[6] == 'r');
    assert("update"@.len() == 6 && "update"@[0] == 'u' && "update"@[1] == 'p' && "update"@[2] == 'd' && "update"@[3] == 'a' && "update"@[4] == 't' && "update"@[5] == 'e');
    assert("logs"@.len() == 4 && "logs"@[0] == 'l' && "logs"@[1] == 'o' && "logs"@[2] == 'g' && "logs"@[3] == 's');
    assert("thumbnail"@.len() == 9 && "thumbnail"@[0] == 't' && "thumbnail"@[1] == 'h' && "thumbnail"@[2] == 'u' && "thumbnail"@[3] == 'm' && "thumbnail"@[4] == 'b' && "thumbnail"@[5] == 'n' && "thumbnail"@[6] == 'a' && "thumbnail"@[7] == 'i' && "thumbnail"@[8] == 'l');
}

} // verus!
