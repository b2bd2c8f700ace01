//! Application uninstalling: the program list built from the registry's
//! Uninstall keys and the Appx package listing, the parsing of uninstall
//! commands, and the heuristic search for directories left behind.
//!
//! Registry reads, process launches and directory sizes are done by the caller,
//! which hands the values read here and acts on what comes back.
use vstd::prelude::*;

use crate::order::is_stable_desc_sort;
use crate::text::{
    char_is_alphanumeric, contains, contains_seq, is_alphanumeric, is_prefix, lower_chars, slice_of, starts_with,
    str_chars, string_from_chars, to_lower, trim, trim_spec,
};

verus! {

/// Keeps the letters and digits (Unicode), then lower-cases (std `to_lowercase`).
pub open spec fn normalize_text_spec(s: Seq<char>) -> Seq<char> {
    lower_chars(s.filter(|c: char| char_is_alphanumeric(c)))
}

/// Text normalised for matching names: letters and digits only (CJK kept,
/// spaces and punctuation dropped), lower case.
pub fn normalize_text(s: &str) -> (r: String)
    ensures
        r@ == normalize_text_spec(s@),
{
    let v = str_chars(s);
    let mut kept: Vec<char> = Vec::new();
    let mut i: usize = 0;
    while i < v.len()
        invariant
            i <= v.len(),
            v@ == s@,
            kept@ == v@.take(i as int).filter(|c: char| char_is_alphanumeric(c)),
        decreases v.len() - i,
    {
        let c = v[i];
        proof {
            assert(v@.take(i + 1).drop_last() =~= v@.take(i as int));
            reveal(Seq::filter);
        }
        if is_alphanumeric(c) {
            kept.push(c);
        }
        i = i + 1;
    }
    assert(v@.take(v.len() as int) =~= v@);
    let k = string_from_chars(&kept);
    to_lower(k.as_str())
}

/// The maximal runs of letters and digits of `s`, in order.
pub open spec fn words(s: Seq<char>) -> Seq<Seq<char>> {
    word_runs(s, Seq::empty())
}

/// The runs of `s` continuing the run `cur` already started.
pub open spec fn word_runs(s: Seq<char>, cur: Seq<char>) -> Seq<Seq<char>>
    decreases s.len(),
{
    if s.len() == 0 {
        seq![cur]
    } else if char_is_alphanumeric(s[0]) {
        word_runs(s.drop_first(), cur.push(s[0]))
    } else {
        seq![cur] + word_runs(s.drop_first(), Seq::empty())
    }
}

/// Company words too common to identify a publisher.
pub open spec fn generic_words() -> Seq<Seq<char>> {
    seq!["microsoft"@, "corporation"@, "corp"@, "inc"@, "ltd"@, "llc"@, "gmbh"@, "the"@,
        "software"@, "systems"@, "system"@, "technologies"@, "technology"@, "group"@,
        "limited"@, "international"@, "application"@, "app"@, "team"@, "labs"@, "studio"@,
        "co"@, "company"@, "network"@, "solutions"@, "organization"@]
}

/// The tokens kept from a list of words: at least four characters, lower-cased,
/// not a generic company word.
pub open spec fn keep_tokens(ws: Seq<Seq<char>>) -> Seq<Seq<char>>
    decreases ws.len(),
{
    if ws.len() == 0 {
        Seq::empty()
    } else {
        let rest = keep_tokens(ws.drop_last());
        let w = lower_chars(ws.last());
        if ws.last().len() >= 4 && !generic_words().contains(w) { rest.push(w) } else { rest }
    }
}

/// Publisher tokens: the publisher's words (split at every character that is
/// not a letter or digit) of at least four characters, lower-cased, without the
/// generic company words.
pub open spec fn publisher_tokens_spec(publisher: Seq<char>) -> Seq<Seq<char>> {
    keep_tokens(words(publisher))
}

fn generic_list() -> (r: Vec<&'static str>)
    ensures
        r@.map_values(|s: &'static str| s@) == generic_words(),
{
    let v: Vec<&'static str> = vec![
        "microsoft", "corporation", "corp", "inc", "ltd", "llc", "gmbh", "the",
        "software", "systems", "system", "technologies", "technology", "group",
        "limited", "international", "application", "app", "team", "labs", "studio",
        "co", "company", "network", "solutions", "organization",
    ];
    assert(v@.map_values(|s: &'static str| s@) =~= generic_words());
    v
}

fn eq_chars(a: &[char], b: &[char]) -> (r: bool)
    ensures
        r == (a@ == b@),
{
    if a.len() != b.len() {
        return false;
    }
    let r = starts_with(a, b);
    assert(r ==> a@ =~= b@) by {
        if r {
            assert(a@.take(b@.len() as int) =~= a@);
        }
    }
    assert(a@ == b@ ==> r) by {
        if a@ == b@ {
            assert(a@.take(b@.len() as int) =~= a@);
        }
    }
    r
}

fn is_generic(w: &Vec<char>) -> (b: bool)
    ensures
        b == generic_words().contains(w@),
{
    let g = generic_list();
    let ghost gv = g@.map_values(|s: &'static str| s@);
    let mut i: usize = 0;
    while i < g.len()
        invariant
            i <= g.len(),
            gv == g@.map_values(|s: &'static str| s@),
            gv == generic_words(),
            forall|j: int| 0 <= j < i ==> gv[j] != w@,
        decreases g.len() - i,
    {
        let c = str_chars(g[i]);
        if eq_chars(&c, w) {
            assert(gv[i as int] == w@);
            return true;
        }
        i = i + 1;
    }
    false
}

fn push_token(out: &mut Vec<String>, word: &Vec<char>)
    ensures
        ({
            let w = lower_chars(word@);
            final(out)@.map_values(|s: String| s@) == if word@.len() >= 4 && !generic_words().contains(w) {
                old(out)@.map_values(|s: String| s@).push(w)
            } else {
                old(out)@.map_values(|s: String| s@)
            }
        }),
{
    if word.len() >= 4 {
        let ws = string_from_chars(word);
        let l = to_lower(ws.as_str());
        let lc = str_chars(l.as_str());
        if !is_generic(&lc) {
            let ghost before = out@.map_values(|s: String| s@);
            out.push(l);
            assert(out@.map_values(|s: String| s@) =~= before.push(lower_chars(word@)));
        }
    }
}

proof fn lemma_word_runs_step(s: Seq<char>, cur: Seq<char>, i: int)
    requires
        0 <= i < s.len(),
    ensures
        char_is_alphanumeric(s[i]) ==> word_runs(s.skip(i), cur) == word_runs(s.skip(i + 1), cur.push(s[i])),
        !char_is_alphanumeric(s[i]) ==> word_runs(s.skip(i), cur) == seq![cur] + word_runs(s.skip(i + 1), Seq::empty()),
{
    assert(s.skip(i).drop_first() =~= s.skip(i + 1));
    assert(s.skip(i)[0] == s[i]);
}

proof fn lemma_keep_tokens_append(a: Seq<Seq<char>>, b: Seq<Seq<char>>)
    ensures
        keep_tokens(a + b) == keep_tokens(a) + keep_tokens(b),
    decreases b.len(),
{
    if b.len() == 0 {
        assert(a + b =~= a);
        assert(keep_tokens(a) + Seq::<Seq<char>>::empty() =~= keep_tokens(a));
    } else {
        assert((a + b).drop_last() =~= a + b.drop_last());
        lemma_keep_tokens_append(a, b.drop_last());
        let w = lower_chars(b.last());
        if b.last().len() >= 4 && !generic_words().contains(w) {
            assert(keep_tokens(a) + keep_tokens(b.drop_last()).push(w) =~= (keep_tokens(a) + keep_tokens(b.drop_last())).push(w));
        }
    }
}

proof fn lemma_keep_one(w: Seq<char>)
    ensures
        keep_tokens(seq![w]) == (if w.len() >= 4 && !generic_words().contains(lower_chars(w)) {
            seq![lower_chars(w)]
        } else {
            Seq::<Seq<char>>::empty()
        }),
{
    assert(seq![w].drop_last() =~= Seq::<Seq<char>>::empty());
    assert(keep_tokens(Seq::<Seq<char>>::empty()) == Seq::<Seq<char>>::empty());
    assert(keep_tokens(seq![w].drop_last()) == Seq::<Seq<char>>::empty());
    assert(seq![w].last() == w);
    assert(seq![w].len() == 1);
    assert(Seq::<Seq<char>>::empty().push(lower_chars(w)) =~= seq![lower_chars(w)]);
}

/// The words of a publisher name that can identify its directories (see
/// `publisher_tokens_spec`).
pub fn publisher_tokens(publisher: &str) -> (r: Vec<String>)
    ensures
        r@.map_values(|s: String| s@) == publisher_tokens_spec(publisher@),
{
    let v = str_chars(publisher);
    let mut out: Vec<String> = Vec::new();
    let mut cur: Vec<char> = Vec::new();
    let mut i: usize = 0;
    assert(v@.skip(0) =~= v@);
    while i < v.len()
        invariant
            i <= v.len(),
            v@ == publisher@,
            keep_tokens(words(v@)) == out@.map_values(|s: String| s@) + keep_tokens(word_runs(v@.skip(i as int), cur@)),
        decreases v.len() - i,
    {
        let c = v[i];
        proof {
            lemma_word_runs_step(v@, cur@, i as int);
        }
        if is_alphanumeric(c) {
            cur.push(c);
        } else {
            let ghost before = out@.map_values(|s: String| s@);
            let ghost rest = word_runs(v@.skip(i + 1), Seq::empty());
            proof {
                lemma_keep_tokens_append(seq![cur@], rest);
                lemma_keep_one(cur@);
            }
            push_token(&mut out, &cur);
            proof {
                assert(before + keep_tokens(seq![cur@] + rest) =~= out@.map_values(|s: String| s@) + keep_tokens(rest));
            }
            cur = Vec::new();
        }
        i = i + 1;
    }
    proof {
        assert(v@.skip(v.len() as int) =~= Seq::<char>::empty());
        let before = out@.map_values(|s: String| s@);
        assert(word_runs(v@.skip(v.len() as int), cur@) == seq![cur@]);
        lemma_keep_one(cur@);
    }
    let ghost before = out@.map_values(|s: String| s@);
    push_token(&mut out, &cur);
    proof {
        assert(before + keep_tokens(seq![cur@]) =~= out@.map_values(|s: String| s@));
    }
    out
}

} // verus!

verus! {

/// Why a directory (its normalised name `dn`) is taken for an application's
/// remains: its name equals the normalised program name or, for a name of at
/// least four characters, contains it; or it contains one of the publisher
/// tokens. A name match comes before a publisher match.
pub open spec fn dir_match_spec(dn: Seq<char>, name: Seq<char>, tokens: Seq<Seq<char>>) -> Option<Seq<char>> {
    if dn == name || (name.len() >= 4 && contains_seq(name, dn)) {
        Some("名称匹配"@)
    } else if exists|k: int| 0 <= k < tokens.len() && contains_seq(#[trigger] tokens[k], dn) {
        Some("发布者匹配"@)
    } else {
        None
    }
}

/// The reason a directory matches an application, if it does (see `dir_match_spec`).
pub fn dir_match_reason(dn: &str, name: &str, pub_tokens: &[String]) -> (r: Option<&'static str>)
    ensures
        match r {
            Some(s) => dir_match_spec(dn@, name@, pub_tokens@.map_values(|t: String| t@)) == Some(s@),
            None => dir_match_spec(dn@, name@, pub_tokens@.map_values(|t: String| t@)) is None,
        },
{
    let d = str_chars(dn);
    let n = str_chars(name);
    let ghost tv = pub_tokens@.map_values(|t: String| t@);
    if eq_chars(&d, &n) || (n.len() >= 4 && contains(&d, &n)) {
        return Some("名称匹配");
    }
    let mut k: usize = 0;
    while k < pub_tokens.len()
        invariant
            k <= pub_tokens.len(),
            tv == pub_tokens@.map_values(|t: String| t@),
            d@ == dn@,
            !(dn@ == name@ || (name@.len() >= 4 && contains_seq(name@, dn@))),
            forall|j: int| 0 <= j < k ==> !contains_seq(#[trigger] tv[j], dn@),
        decreases pub_tokens.len() - k,
    {
        let t = str_chars(pub_tokens[k].as_str());
        if contains(&d, &t) {
            proof {
                assert(tv[k as int] == t@);
                assert(contains_seq(tv[k as int], dn@));
                assert(!(dn@ == name@ || (name@.len() >= 4 && contains_seq(name@, dn@))));
            }
            return Some("发布者匹配");
        }
        k = k + 1;
    }
    None
}

/// An ASCII decimal digit.
pub open spec fn is_ascii_digit(c: char) -> bool {
    '0' <= c && c <= '9'
}

/// An install date as shown: `YYYYMMDD` (after trimming) becomes `YYYY-MM-DD`;
/// anything else is shown trimmed.
pub open spec fn install_date_spec(raw: Seq<char>) -> Seq<char> {
    let t = trim_spec(raw);
    if t.len() == 8 && forall|k: int| 0 <= k < 8 ==> #[trigger] is_ascii_digit(t[k]) {
        t.take(4) + "-"@ + t.subrange(4, 6) + "-"@ + t.subrange(6, 8)
    } else {
        t
    }
}

/// Formats a registry install date (see `install_date_spec`).
pub fn format_install_date(raw: &str) -> (r: String)
    ensures
        r@ == install_date_spec(raw@),
{
    let v = str_chars(raw);
    let t = trim(&v);
    let mut all_digits = t.len() == 8;
    let mut k: usize = 0;
    while all_digits && k < t.len()
        invariant
            k <= t.len(),
            all_digits ==> t.len() == 8 && forall|j: int| 0 <= j < k ==> #[trigger] is_ascii_digit(t@[j]),
            !all_digits ==> !(t.len() == 8 && forall|j: int| 0 <= j < 8 ==> #[trigger] is_ascii_digit(t@[j])),
        decreases t.len() - k,
    {
        if !('0' <= t[k] && t[k] <= '9') {
            assert(!is_ascii_digit(t@[k as int]));
            all_digits = false;
        }
        k = k + 1;
    }
    if all_digits {
        let mut out = slice_of(&t, 0, 4);
        out.push('-');
        let mid = slice_of(&t, 4, 6);
        out.extend_from_slice(&mid);
        out.push('-');
        let end = slice_of(&t, 6, 8);
        out.extend_from_slice(&end);
        proof {
            reveal_strlit("-");
            assert(out@ =~= t@.take(4) + "-"@ + t@.subrange(4, 6) + "-"@ + t@.subrange(6, 8));
        }
        string_from_chars(&out)
    } else {
        string_from_chars(&t)
    }
}

/// MSI arguments for uninstalling: `/I` (modify) becomes `/X` (remove).
pub open spec fn msi_args_spec(args: Seq<char>) -> Seq<char> {
    let t = trim_spec(args);
    if is_prefix("/I"@, t) { "/X"@ + t.skip(2) } else { t }
}

/// Normalises MsiExec arguments (see `msi_args_spec`).
pub fn normalize_msi_args(args: &str) -> (r: String)
    ensures
        r@ == msi_args_spec(args@),
{
    let v = str_chars(args);
    let t = trim(&v);
    let pi = str_chars("/I");
    proof {
        reveal_strlit("/I");
        reveal_strlit("/X");
    }
    if starts_with(&t, &pi) {
        let mut out = str_chars("/X");
        let rest = slice_of(&t, 2, t.len());
        out.extend_from_slice(&rest);
        proof {
            reveal_strlit("/I");
            reveal_strlit("/X");
            assert(out@ =~= "/X"@ + t@.skip(2));
        }
        string_from_chars(&out)
    } else {
        string_from_chars(&t)
    }
}

/// The state of the argument splitter after reading `s`: the arguments
/// completed, the one being read, and whether a quote is open.
pub open spec fn split_state(s: Seq<char>) -> (Seq<Seq<char>>, Seq<char>, bool)
    decreases s.len(),
{
    if s.len() == 0 {
        (Seq::empty(), Seq::empty(), false)
    } else {
        let (done, cur, q) = split_state(s.drop_last());
        let c = s.last();
        if c == '"' {
            (done, cur, !q)
        } else if (c == ' ' || c == '\t') && !q {
            if cur.len() > 0 { (done.push(cur), Seq::empty(), q) } else { (done, cur, q) }
        } else {
            (done, cur.push(c), q)
        }
    }
}

/// Command-line arguments: split at spaces and tabs outside double quotes; the
/// quotes themselves are dropped; empty arguments are not produced.
pub open spec fn split_args_spec(s: Seq<char>) -> Seq<Seq<char>> {
    let (done, cur, _q) = split_state(s);
    if cur.len() > 0 { done.push(cur) } else { done }
}

/// Splits uninstaller arguments (see `split_args_spec`).
pub fn split_args(s: &str) -> (r: Vec<String>)
    ensures
        r@.map_values(|a: String| a@) == split_args_spec(s@),
{
    let v = str_chars(s);
    let mut out: Vec<String> = Vec::new();
    let mut cur: Vec<char> = Vec::new();
    let mut in_quote = false;
    let mut i: usize = 0;
    while i < v.len()
        invariant
            i <= v.len(),
            v@ == s@,
            split_state(v@.take(i as int)) == (out@.map_values(|a: String| a@), cur@, in_quote),
        decreases v.len() - i,
    {
        let c = v[i];
        assert(v@.take(i + 1).drop_last() =~= v@.take(i as int));
        assert(v@.take(i + 1).last() == c);
        if c == '"' {
            in_quote = !in_quote;
        } else if (c == ' ' || c == '\t') && !in_quote {
            if cur.len() > 0 {
                let ghost before = out@.map_values(|a: String| a@);
                out.push(string_from_chars(&cur));
                assert(out@.map_values(|a: String| a@) =~= before.push(cur@));
                cur = Vec::new();
            }
        } else {
            cur.push(c);
        }
        i = i + 1;
    }
    assert(v@.take(v.len() as int) =~= v@);
    if cur.len() > 0 {
        let ghost before = out@.map_values(|a: String| a@);
        out.push(string_from_chars(&cur));
        assert(out@.map_values(|a: String| a@) =~= before.push(cur@));
    }
    out
}

/// This application itself (it is never offered for uninstalling, and its
/// directories never taken for remains).
pub open spec fn is_self_spec(name: Seq<char>) -> bool {
    contains_seq("diskclear"@, lower_chars(name)) || contains_seq("盘清"@, name)
}

/// Whether a program name is this application's (see `is_self_spec`).
pub fn is_self(name: &str) -> (b: bool)
    ensures
        b == is_self_spec(name@),
{
    let l = to_lower(name);
    let lc = str_chars(l.as_str());
    let d = str_chars("diskclear");
    let n = str_chars(name);
    let p = str_chars("盘清");
    contains(&lc, &d) || contains(&n, &p)
}

} // verus!

verus! {

/// Position of the first `c` in `s`.
pub open spec fn first_pos(s: Seq<char>, c: char) -> Option<int>
    decreases s.len(),
{
    if s.len() == 0 {
        None
    } else if s[0] == c {
        Some(0)
    } else {
        match first_pos(s.drop_first(), c) {
            Some(i) => Some(i + 1),
            None => None,
        }
    }
}

proof fn lemma_first_pos(s: Seq<char>, c: char, r: Option<int>)
    requires
        match r {
            Some(i) => 0 <= i < s.len() && s[i] == c && forall|j: int| 0 <= j < i ==> s[j] != c,
            None => forall|j: int| 0 <= j < s.len() ==> s[j] != c,
        },
    ensures
        first_pos(s, c) == r,
    decreases s.len(),
{
    if s.len() > 0 && s[0] != c {
        let r1 = match r {
            Some(i) => Some(i - 1),
            None => None,
        };
        assert forall|j: int| 0 <= j < s.drop_first().len() && (r1 is None || j < r1->0) implies s.drop_first()[j] != c by {
            assert(s.drop_first()[j] == s[j + 1]);
        }
        match r {
            Some(i) => {
                assert(i > 0);
                assert(s.drop_first()[i - 1] == s[i]);
            },
            None => {},
        }
        lemma_first_pos(s.drop_first(), c, r1);
    }
}

fn first_pos_exec(s: &[char], c: char) -> (r: Option<usize>)
    ensures
        match r {
            Some(i) => first_pos(s@, c) == Some(i as int) && i < s.len(),
            None => first_pos(s@, c) is None,
        },
{
    let r = crate::text::find_char(s, c);
    proof {
        lemma_first_pos(s@, c, match r { Some(i) => Some(i as int), None => None });
    }
    r
}

/// Positions of the spaces of `t`, in increasing order.
pub open spec fn space_cuts(t: Seq<char>) -> Seq<int>
    decreases t.len(),
{
    if t.len() == 0 {
        Seq::empty()
    } else if t.last() == ' ' {
        space_cuts(t.drop_last()).push(t.len() - 1)
    } else {
        space_cuts(t.drop_last())
    }
}

proof fn lemma_space_cuts(t: Seq<char>)
    ensures
        forall|k: int| 0 <= k < space_cuts(t).len() ==> 0 <= #[trigger] space_cuts(t)[k] < t.len()
            && t[space_cuts(t)[k]] == ' ',
    decreases t.len(),
{
    if t.len() > 0 {
        lemma_space_cuts(t.drop_last());
        let c0 = space_cuts(t.drop_last());
        let c = space_cuts(t);
        assert forall|k: int| 0 <= k < c.len() implies 0 <= #[trigger] c[k] < t.len() && t[c[k]] == ' ' by {
            if k < c0.len() {
                assert(c[k] == c0[k]);
                assert(t.drop_last()[c0[k]] == t[c0[k]]);
            }
        }
    }
}

fn space_cuts_exec(t: &[char]) -> (r: Vec<usize>)
    ensures
        r@.len() == space_cuts(t@).len(),
        forall|k: int| 0 <= k < r.len() ==> #[trigger] r@[k] as int == space_cuts(t@)[k],
{
    let mut r: Vec<usize> = Vec::new();
    let mut i: usize = 0;
    while i < t.len()
        invariant
            i <= t.len(),
            r@.len() == space_cuts(t@.take(i as int)).len(),
            forall|k: int| 0 <= k < r.len() ==> #[trigger] r@[k] as int == space_cuts(t@.take(i as int))[k],
        decreases t.len() - i,
    {
        assert(t@.take(i + 1).drop_last() =~= t@.take(i as int));
        assert(t@.take(i + 1).last() == t@[i as int]);
        if t[i] == ' ' {
            r.push(i);
        }
        i = i + 1;
    }
    assert(t@.take(t.len() as int) =~= t@);
    r
}

/// Whether probe `k` found a file.
pub open spec fn probe_hit(probes: Seq<bool>, k: int) -> bool {
    0 <= k < probes.len() && probes[k]
}

/// The first probe among the first `n` that found a file.
pub open spec fn first_hit(probes: Seq<bool>, n: int) -> Option<int>
    decreases n,
{
    if n <= 0 {
        None
    } else {
        match first_hit(probes, n - 1) {
            Some(k) => Some(k),
            None => if probe_hit(probes, n - 1) { Some(n - 1) } else { None },
        }
    }
}

/// The paths to test for existence when an uninstall command is unquoted: the
/// text before each space, in order, then the whole (trimmed) command.
pub open spec fn probes_spec(s: Seq<char>) -> Seq<Seq<char>> {
    let t = trim_spec(s);
    space_cuts(t).map_values(|c: int| t.take(c)).push(t)
}

/// The program and arguments of an uninstall command line. A quoted program
/// ends at the closing quote; a command naming MsiExec splits at the first
/// space; otherwise the program is the text before the first space at which an
/// existing file was found (`probes[k]` tells whether the `k`-th path of
/// `probes_spec` is a file), else the whole command if it is a file, else the
/// text before the first space. Arguments are trimmed. `None` for an empty
/// command, an unclosed quote or an empty quoted program.
pub open spec fn parse_uninstall_spec(s: Seq<char>, probes: Seq<bool>) -> Option<(Seq<char>, Seq<char>)> {
    let t = trim_spec(s);
    if t.len() == 0 {
        None
    } else if t[0] == '"' {
        let inner = t.skip(1);
        match first_pos(inner, '"') {
            None => None,
            Some(e) => {
                let prog = trim_spec(inner.take(e));
                if prog.len() == 0 { None } else { Some((prog, trim_spec(inner.skip(e + 1)))) }
            },
        }
    } else if contains_seq("msiexec"@, lower_chars(t)) {
        match first_pos(t, ' ') {
            Some(i) => Some((trim_spec(t.take(i)), trim_spec(t.skip(i + 1)))),
            None => Some((t, Seq::empty())),
        }
    } else {
        let cuts = space_cuts(t);
        match first_hit(probes, cuts.len() as int) {
            Some(k) => Some((t.take(cuts[k]), trim_spec(t.skip(cuts[k] + 1)))),
            None => if probe_hit(probes, cuts.len() as int) {
                Some((t, Seq::empty()))
            } else if cuts.len() > 0 {
                Some((t.take(cuts[0]), trim_spec(t.skip(cuts[0] + 1))))
            } else {
                Some((t, Seq::empty()))
            },
        }
    }
}

/// The paths whose existence decides how an unquoted command is split (see `probes_spec`).
pub fn uninstall_probes(s: &str) -> (r: Vec<String>)
    ensures
        r@.map_values(|p: String| p@) == probes_spec(s@),
{
    let v = str_chars(s);
    let t = trim(&v);
    let cuts = space_cuts_exec(&t);
    proof {
        lemma_space_cuts(t@);
    }
    let mut r: Vec<String> = Vec::new();
    let mut k: usize = 0;
    while k < cuts.len()
        invariant
            k <= cuts.len(),
            t@ == trim_spec(s@),
            cuts@.len() == space_cuts(t@).len(),
            forall|q: int| 0 <= q < cuts.len() ==> #[trigger] cuts@[q] as int == space_cuts(t@)[q],
            forall|q: int| 0 <= q < space_cuts(t@).len() ==> 0 <= #[trigger] space_cuts(t@)[q] < t@.len(),
            r.len() == k,
            forall|q: int| 0 <= q < k ==> #[trigger] r@[q]@ == t@.take(space_cuts(t@)[q]),
        decreases cuts.len() - k,
    {
        assert(space_cuts(t@)[k as int] < t@.len());
        let p = slice_of(&t, 0, cuts[k]);
        r.push(string_from_chars(&p));
        k = k + 1;
    }
    r.push(string_from_chars(&t));
    assert(r@.map_values(|p: String| p@) =~= probes_spec(s@));
    r
}

/// The first of the first `n` probes that found a file, if any.
proof fn lemma_first_hit_is_first(probes: Seq<bool>, n: int)
    requires
        n >= 0,
    ensures
        match first_hit(probes, n) {
            Some(k) => 0 <= k < n && probe_hit(probes, k) && forall|j: int| 0 <= j < k ==> !#[trigger] probe_hit(probes, j),
            None => forall|j: int| 0 <= j < n ==> !#[trigger] probe_hit(probes, j),
        },
    decreases n,
{
    if n > 0 {
        lemma_first_hit_is_first(probes, n - 1);
    }
}

/// An unquoted command that names no MsiExec is split at the first probed path
/// that is an existing file: the probed paths are the text before each space,
/// then the whole command, and the program is the first of them found to be a
/// file, or the text before the first space when none is (the whole command
/// when it has no space). The program is thus always a prefix of the command
/// that ends at a space or at its end; the arguments are the trimmed rest, and
/// empty when the program is the whole command.
pub proof fn unquoted_command_splits_at_first_existing_path(s: Seq<char>, probes: Seq<bool>)
    requires
        trim_spec(s).len() > 0,
        trim_spec(s)[0] != '"',
        !contains_seq("msiexec"@, lower_chars(trim_spec(s))),
        probes.len() == probes_spec(s).len(),
    ensures
        parse_uninstall_spec(s, probes) is Some,
        forall|k: int| 0 <= k < probes.len() && #[trigger] probes[k] && (forall|j: int| 0 <= j < k ==> !probes[j])
            ==> parse_uninstall_spec(s, probes).unwrap().0 == probes_spec(s)[k],
        (forall|k: int| 0 <= k < probes.len() ==> !#[trigger] probes[k])
            ==> parse_uninstall_spec(s, probes).unwrap().0 == probes_spec(s)[0],
        parse_uninstall_spec(s, probes).unwrap().0 == trim_spec(s) ==> parse_uninstall_spec(s, probes).unwrap().1.len() == 0,
        ({
            let t = trim_spec(s);
            let p = parse_uninstall_spec(s, probes).unwrap().0;
            p.len() < t.len() ==> t.take(p.len() as int) == p && t[p.len() as int] == ' '
                && parse_uninstall_spec(s, probes).unwrap().1 == trim_spec(t.skip(p.len() as int + 1))
        }),
        parse_uninstall_spec(s, probes).unwrap().0.len() <= trim_spec(s).len(),
{
    let t = trim_spec(s);
    let cuts = space_cuts(t);
    let ps = probes_spec(s);
    lemma_space_cuts(t);
    lemma_first_hit_is_first(probes, cuts.len() as int);
    assert(ps.len() == cuts.len() + 1);
    assert(ps[cuts.len() as int] == t);
    assert forall|k: int| 0 <= k < cuts.len() implies #[trigger] ps[k] == t.take(cuts[k]) by {}
    match first_hit(probes, cuts.len() as int) {
        Some(k) => {
            assert(probes[k]);
            assert forall|k2: int| 0 <= k2 < probes.len() && #[trigger] probes[k2] && (forall|j: int| 0 <= j < k2 ==> !probes[j])
                implies k2 == k by {
                if k2 < k {
                    assert(!probe_hit(probes, k2));
                } else if k2 > k {
                    assert(!probes[k]);
                }
            }
            assert(ps[k] == t.take(cuts[k]));
        },
        None => {
            if probe_hit(probes, cuts.len() as int) {
                assert forall|k2: int| 0 <= k2 < probes.len() && #[trigger] probes[k2] && (forall|j: int| 0 <= j < k2 ==> !probes[j])
                    implies k2 == cuts.len() by {
                    if k2 < cuts.len() {
                        assert(!probe_hit(probes, k2));
                    }
                }
            } else {
                assert forall|k2: int| 0 <= k2 < probes.len() implies !#[trigger] probes[k2] by {
                    if k2 < cuts.len() {
                        assert(!probe_hit(probes, k2));
                    }
                }
                if cuts.len() > 0 {
                    assert(ps[0] == t.take(cuts[0]));
                }
            }
        },
    }
}

proof fn lemma_first_hit(probes: Seq<bool>, n: int, k: int)
    requires
        0 <= k <= n,
        forall|j: int| 0 <= j < k ==> !#[trigger] probe_hit(probes, j),
        k < n ==> probe_hit(probes, k),
    ensures
        first_hit(probes, n) == (if k < n { Some(k) } else { None::<int> }),
    decreases n,
{
    if n > 0 {
        if k < n - 1 {
            lemma_first_hit(probes, n - 1, k);
        } else {
            lemma_first_hit(probes, n - 1, n - 1);
        }
    }
}

/// Splits an uninstall command into program and arguments (see
/// `parse_uninstall_spec`; `probes[k]` answers for the `k`-th path of
/// `uninstall_probes`, a missing answer counting as "no file").
pub fn parse_uninstall_string(s: &str, probes: &Vec<bool>) -> (r: Option<(String, String)>)
    ensures
        match r {
            Some((p, a)) => parse_uninstall_spec(s@, probes@) == Some((p@, a@)),
            None => parse_uninstall_spec(s@, probes@) is None,
        },
{
    let v = str_chars(s);
    let t = trim(&v);
    if t.len() == 0 {
        return None;
    }
    if t[0] == '"' {
        let inner = slice_of(&t, 1, t.len());
        assert(inner@ =~= t@.skip(1));
        match first_pos_exec(&inner, '"') {
            None => return None,
            Some(e) => {
                let p0 = slice_of(&inner, 0, e);
                assert(p0@ =~= inner@.take(e as int));
                let prog = trim(&p0);
                if prog.len() == 0 {
                    return None;
                }
                let a0 = slice_of(&inner, e + 1, inner.len());
                assert(a0@ =~= inner@.skip(e + 1));
                let args = trim(&a0);
                return Some((string_from_chars(&prog), string_from_chars(&args)));
            },
        }
    }
    let ts = string_from_chars(&t);
    let low = to_lower(ts.as_str());
    let lc = str_chars(low.as_str());
    let ms = str_chars("msiexec");
    if contains(&lc, &ms) {
        match first_pos_exec(&t, ' ') {
            Some(i) => {
                let p0 = slice_of(&t, 0, i);
                let a0 = slice_of(&t, i + 1, t.len());
                assert(p0@ =~= t@.take(i as int));
                assert(a0@ =~= t@.skip(i + 1));
                let p = trim(&p0);
                let a = trim(&a0);
                return Some((string_from_chars(&p), string_from_chars(&a)));
            },
            None => return Some((ts, String::new())),
        }
    }
    let cuts = space_cuts_exec(&t);
    proof {
        lemma_space_cuts(t@);
    }
    let mut k: usize = 0;
    while k < cuts.len()
        invariant
            k <= cuts.len(),
            t@ == trim_spec(s@),
            t@.len() > 0 && t@[0] != '"',
            !contains_seq("msiexec"@, lower_chars(t@)),
            cuts@.len() == space_cuts(t@).len(),
            forall|q: int| 0 <= q < cuts.len() ==> #[trigger] cuts@[q] as int == space_cuts(t@)[q],
            forall|q: int| 0 <= q < space_cuts(t@).len() ==> 0 <= #[trigger] space_cuts(t@)[q] < t@.len(),
            forall|j: int| 0 <= j < k ==> !#[trigger] probe_hit(probes@, j),
        decreases cuts.len() - k,
    {
        if k < probes.len() && probes[k] {
            proof {
                lemma_first_hit(probes@, cuts@.len() as int, k as int);
            }
            let c = cuts[k];
            assert(space_cuts(t@)[k as int] < t@.len());
            let p = slice_of(&t, 0, c);
            let a0 = slice_of(&t, c + 1, t.len());
            assert(p@ =~= t@.take(c as int));
            assert(a0@ =~= t@.skip(c + 1));
            let a = trim(&a0);
            return Some((string_from_chars(&p), string_from_chars(&a)));
        }
        k = k + 1;
    }
    proof {
        lemma_first_hit(probes@, cuts@.len() as int, cuts@.len() as int);
    }
    let n = cuts.len();
    if n < probes.len() && probes[n] {
        return Some((ts, String::new()));
    }
    if n > 0 {
        let c = cuts[0];
        assert(space_cuts(t@)[0] < t@.len());
        let p = slice_of(&t, 0, c);
        let a0 = slice_of(&t, c + 1, t.len());
        assert(p@ =~= t@.take(c as int));
        assert(a0@ =~= t@.skip(c + 1));
        let a = trim(&a0);
        return Some((string_from_chars(&p), string_from_chars(&a)));
    }
    Some((ts, String::new()))
}

} // verus!

verus! {

/// What is run to uninstall a desktop program: the parsed program, and its
/// arguments split (for MsiExec, with `/I` turned into `/X`).
pub open spec fn uninstall_command_spec(s: Seq<char>, probes: Seq<bool>) -> Option<(Seq<char>, Seq<Seq<char>>)> {
    match parse_uninstall_spec(s, probes) {
        None => None,
        Some((prog, args)) => {
            let pl = lower_chars(prog);
            let a = if crate::text::is_suffix("msiexec.exe"@, pl) || crate::text::is_suffix("msiexec"@, pl) {
                msi_args_spec(args)
            } else {
                args
            };
            Some((prog, split_args_spec(a)))
        },
    }
}

/// The program and argument list that uninstall a desktop program (see
/// `uninstall_command_spec`); the error when the command cannot be parsed.
pub fn uninstall_command(uninstall_string: &str, probes: &Vec<bool>) -> (r: Result<(String, Vec<String>), String>)
    ensures
        match r {
            Ok((p, a)) => uninstall_command_spec(uninstall_string@, probes@) == Some((p@, a@.map_values(|x: String| x@))),
            Err(m) => uninstall_command_spec(uninstall_string@, probes@) is None && m@ == "无法解析卸载命令"@,
        },
{
    match parse_uninstall_string(uninstall_string, probes) {
        None => Err("无法解析卸载命令".to_owned()),
        Some((prog, args)) => {
            let pl = to_lower(prog.as_str());
            let plc = str_chars(pl.as_str());
            let s1 = str_chars("msiexec.exe");
            let s2 = str_chars("msiexec");
            let a = if crate::text::ends_with(&plc, &s1) || crate::text::ends_with(&plc, &s2) {
                normalize_msi_args(args.as_str())
            } else {
                args
            };
            let parts = split_args(a.as_str());
            Ok((prog, parts))
        },
    }
}

/// The PowerShell command that removes an Appx package, or the error when the
/// package name is empty.
pub fn uwp_remove_script(package_full_name: &str) -> (r: Result<String, String>)
    ensures
        match r {
            Ok(s) => trim_spec(package_full_name@).len() > 0
                && s@ == "Remove-AppxPackage -Package '"@ + trim_spec(package_full_name@) + "'"@,
            Err(m) => trim_spec(package_full_name@).len() == 0 && m@ == "缺少 UWP 包标识（PackageFullName）"@,
        },
{
    let v = str_chars(package_full_name);
    let t = trim(&v);
    if t.len() == 0 {
        return Err("缺少 UWP 包标识（PackageFullName）".to_owned());
    }
    let mut out = str_chars("Remove-AppxPackage -Package '");
    out.extend_from_slice(&t);
    out.push('\'');
    proof {
        reveal_strlit("'");
        assert(out@ =~= "Remove-AppxPackage -Package '"@ + t@ + "'"@);
    }
    Ok(string_from_chars(&out))
}

} // verus!

verus! {

/// `first_pos` finds the first occurrence of a character when there is one.
pub proof fn lemma_first_pos_some(s: Seq<char>, c: char)
    ensures
        first_pos(s, c) matches Some(i) ==> 0 <= i < s.len() && s[i] == c && forall|j: int| 0 <= j < i ==> s[j] != c,
        first_pos(s, c) is None ==> forall|j: int| 0 <= j < s.len() ==> s[j] != c,
    decreases s.len(),
{
    if s.len() > 0 && s[0] != c {
        lemma_first_pos_some(s.drop_first(), c);
        assert forall|j: int| 1 <= j < s.len() implies s[j] == s.drop_first()[j - 1] by {}
    }
}

/// The environment variables that `%NAME%` references in `s` name, in order
/// (`%%` names none).
pub open spec fn env_refs_spec(s: Seq<char>) -> Seq<Seq<char>>
    decreases s.len(),
{
    match first_pos(s, '%') {
        None => Seq::empty(),
        Some(i) => {
            let after = s.skip(i + 1);
            match first_pos(after, '%') {
                None => Seq::empty(),
                Some(j) => {
                    proof {
                        lemma_first_pos_some(s, '%');
                        lemma_first_pos_some(after, '%');
                    }
                    let var = after.take(j);
                    let rest = after.skip(j + 1);
                    if var.len() == 0 { env_refs_spec(rest) } else { seq![var] + env_refs_spec(rest) }
                },
            }
        },
    }
}

/// `s` with each `%NAME%` replaced by the next of `vals` (the value of the
/// variable, or `None` when it is not set, in which case the reference stays
/// as written); `%%` stays, and an unpaired `%` is kept as is.
pub open spec fn expand_spec(s: Seq<char>, vals: Seq<Option<Seq<char>>>) -> Seq<char>
    decreases s.len(),
{
    match first_pos(s, '%') {
        None => s,
        Some(i) => {
            let after = s.skip(i + 1);
            match first_pos(after, '%') {
                None => s,
                Some(j) => {
                    proof {
                        lemma_first_pos_some(s, '%');
                        lemma_first_pos_some(after, '%');
                    }
                    let var = after.take(j);
                    let rest = after.skip(j + 1);
                    if var.len() == 0 {
                        s.take(i) + "%%"@ + expand_spec(rest, vals)
                    } else {
                        let v = if vals.len() > 0 && vals[0] is Some { vals[0]->0 } else { "%"@ + var + "%"@ };
                        s.take(i) + v + expand_spec(rest, if vals.len() > 0 { vals.drop_first() } else { vals })
                    }
                },
            }
        },
    }
}

/// The variables referenced by `%NAME%` in `s`, to be looked up in the
/// environment (see `env_refs_spec`).
pub fn env_refs(s: &str) -> (r: Vec<String>)
    ensures
        r@.map_values(|x: String| x@) == env_refs_spec(s@),
{
    let v = str_chars(s);
    let mut r: Vec<String> = Vec::new();
    let mut pos: usize = 0;
    assert(v@.skip(0) =~= v@);
    loop
        invariant
            pos <= v.len(),
            v@ == s@,
            env_refs_spec(s@) == r@.map_values(|x: String| x@) + env_refs_spec(v@.skip(pos as int)),
        ensures
            env_refs_spec(s@) == r@.map_values(|x: String| x@),
        decreases v.len() - pos,
    {
        let rest = slice_of(&v, pos, v.len());
        assert(rest@ =~= v@.skip(pos as int));
        proof {
            lemma_first_pos_some(rest@, '%');
        }
        match first_pos_exec(&rest, '%') {
            None => {
                assert(r@.map_values(|x: String| x@) + Seq::<Seq<char>>::empty() =~= r@.map_values(|x: String| x@));
                break;
            },
            Some(i) => {
                let after = slice_of(&rest, i + 1, rest.len());
                assert(after@ =~= rest@.skip(i + 1));
                proof {
                    lemma_first_pos_some(after@, '%');
                }
                match first_pos_exec(&after, '%') {
                    None => {
                        assert(r@.map_values(|x: String| x@) + Seq::<Seq<char>>::empty() =~= r@.map_values(|x: String| x@));
                        break;
                    },
                    Some(j) => {
                        let var = slice_of(&after, 0, j);
                        assert(var@ =~= after@.take(j as int));
                        let ghost next = pos + i + 1 + j + 1;
                        assert(after@.skip(j + 1) =~= v@.skip(next));
                        if var.len() > 0 {
                            let ghost before = r@.map_values(|x: String| x@);
                            r.push(string_from_chars(&var));
                            assert(r@.map_values(|x: String| x@) =~= before.push(var@));
                            assert(before + (seq![var@] + env_refs_spec(v@.skip(next))) =~= before.push(var@) + env_refs_spec(v@.skip(next)));
                        }
                        pos = pos + i + 1 + j + 1;
                    },
                }
            },
        }
    }
    r
}

/// `s` with its `%NAME%` references replaced (see `expand_spec`; `vals[k]` is
/// the value of the `k`-th variable of `env_refs`).
#[verifier::rlimit(60)]
pub fn expand_env(s: &str, vals: &Vec<Option<String>>) -> (r: String)
    ensures
        r@ == expand_spec(s@, vals@.map_values(|o: Option<String>| match o { Some(x) => Some(x@), None => None })),
{
    let ghost vv = vals@.map_values(|o: Option<String>| match o { Some(x) => Some(x@), None => None });
    let v = str_chars(s);
    let mut out: Vec<char> = Vec::new();
    let mut pos: usize = 0;
    let mut vi: usize = 0;
    assert(v@.skip(0) =~= v@);
    assert(vv.skip(0) =~= vv);
    assert(out@ + expand_spec(s@, vv) =~= expand_spec(s@, vv));
    loop
        invariant_except_break
            expand_spec(s@, vv) == out@ + expand_spec(v@.skip(pos as int), vv.skip(vi as int)),
        invariant
            pos <= v.len(),
            vi <= vals.len(),
            v@ == s@,
            vv == vals@.map_values(|o: Option<String>| match o { Some(x) => Some(x@), None => None }),
        ensures
            expand_spec(s@, vv) == out@,
        decreases v.len() - pos,
    {
        let rest = slice_of(&v, pos, v.len());
        assert(rest@ =~= v@.skip(pos as int));
        proof {
            lemma_first_pos_some(rest@, '%');
        }
        match first_pos_exec(&rest, '%') {
            None => {
                out.extend_from_slice(&rest);
                assert(expand_spec(rest@, vv.skip(vi as int)) == rest@);
                break;
            },
            Some(i) => {
                let after = slice_of(&rest, i + 1, rest.len());
                assert(after@ =~= rest@.skip(i + 1));
                proof {
                    lemma_first_pos_some(after@, '%');
                }
                match first_pos_exec(&after, '%') {
                    None => {
                        out.extend_from_slice(&rest);
                        assert(expand_spec(rest@, vv.skip(vi as int)) == rest@);
                        break;
                    },
                    Some(j) => {
                        let head = slice_of(&rest, 0, i);
                        assert(head@ =~= rest@.take(i as int));
                        let var = slice_of(&after, 0, j);
                        assert(var@ =~= after@.take(j as int));
                        let ghost next = pos + i + 1 + j + 1;
                        assert(after@.skip(j + 1) =~= v@.skip(next));
                        let ghost before = out@;
                        let ghost vrest = vv.skip(vi as int);
                        let ghost seg: Seq<char> = if var@.len() == 0 {
                            "%%"@
                        } else if vrest.len() > 0 && vrest[0] is Some {
                            vrest[0]->0
                        } else {
                            "%"@ + var@ + "%"@
                        };
                        let ghost vals_next = if var@.len() > 0 && vrest.len() > 0 { vrest.drop_first() } else { vrest };
                        proof {
                            assert(expand_spec(rest@, vrest) == rest@.take(i as int) + seg + expand_spec(after@.skip(j + 1), vals_next));
                        }
                        out.extend_from_slice(&head);
                        if var.len() == 0 {
                            out.push('%');
                            out.push('%');
                            proof {
                                reveal_strlit("%%");
                                assert(out@ =~= before + rest@.take(i as int) + seg);
                            }
                        } else {
                            if vi < vals.len() && vals[vi].is_some() {
                                match &vals[vi] {
                                    Some(x) => {
                                        let xc = str_chars(x.as_str());
                                        out.extend_from_slice(&xc);
                                        proof {
                                            assert(vrest[0] == vv[vi as int]);
                                            assert(vv[vi as int] == Some(x@));
                                            assert(out@ =~= before + rest@.take(i as int) + seg);
                                        }
                                    },
                                    None => {},
                                }
                            } else {
                                out.push('%');
                                out.extend_from_slice(&var);
                                out.push('%');
                                proof {
                                    reveal_strlit("%");
                                    if vi < vals.len() {
                                        assert(vrest[0] == vv[vi as int]);
                                    }
                                    assert(out@ =~= before + rest@.take(i as int) + seg);
                                }
                            }
                            if vi < vals.len() {
                                assert(vrest.drop_first() =~= vv.skip(vi + 1));
                                vi = vi + 1;
                            }
                        }
                        pos = pos + i + 1 + j + 1;
                        proof {
                            assert(vals_next == vv.skip(vi as int));
                            assert(before + (rest@.take(i as int) + seg + expand_spec(v@.skip(pos as int), vv.skip(vi as int)))
                                =~= out@ + expand_spec(v@.skip(pos as int), vv.skip(vi as int)));
                        }
                    },
                }
            },
        }
    }
    string_from_chars(&out)
}

} // verus!

verus! {

/// A program found in the Uninstall keys of the registry or among the Appx packages.
pub struct InstalledApp {
    /// `<key path>\<subkey>` for the registry, `uwp:<PackageFullName>` for Appx.
    pub id: String,
    pub name: String,
    pub version: String,
    pub publisher: String,
    /// `YYYY-MM-DD` when it could be read that way; empty for Appx.
    pub install_date: String,
    /// Bytes; 0 when unknown.
    pub estimated_size: u64,
    pub uninstall_string: String,
    pub install_location: String,
    pub is_uwp: bool,
}

/// Strict lexicographic order of strings by code point (the order of `str`'s `<`).
pub open spec fn lex_lt(a: Seq<char>, b: Seq<char>) -> bool
    decreases a.len(),
{
    if a.len() == 0 {
        b.len() > 0
    } else if b.len() == 0 {
        false
    } else if (a[0] as int) < (b[0] as int) {
        true
    } else if (a[0] as int) > (b[0] as int) {
        false
    } else {
        lex_lt(a.drop_first(), b.drop_first())
    }
}

proof fn lemma_lex_irreflexive(a: Seq<char>)
    ensures
        !lex_lt(a, a),
    decreases a.len(),
{
    if a.len() > 0 {
        lemma_lex_irreflexive(a.drop_first());
    }
}

proof fn lemma_lex_transitive(a: Seq<char>, b: Seq<char>, c: Seq<char>)
    requires
        lex_lt(a, b),
        lex_lt(b, c),
    ensures
        lex_lt(a, c),
    decreases a.len(),
{
    if a.len() > 0 && b.len() > 0 && c.len() > 0 {
        if a[0] as int == b[0] as int && b[0] as int == c[0] as int {
            lemma_lex_transitive(a.drop_first(), b.drop_first(), c.drop_first());
        }
    }
}

proof fn lemma_lex_total(a: Seq<char>, b: Seq<char>)
    ensures
        lex_lt(a, b) || lex_lt(b, a) || a == b,
    decreases a.len(),
{
    if a.len() > 0 && b.len() > 0 {
        if a[0] as int == b[0] as int {
            lemma_lex_total(a.drop_first(), b.drop_first());
            if a.drop_first() == b.drop_first() {
                assert(a[0] == b[0]);
                assert(a =~= seq![a[0]] + a.drop_first());
                assert(b =~= seq![b[0]] + b.drop_first());
            }
        }
    } else if a.len() == 0 && b.len() == 0 {
        assert(a =~= b);
    }
}

fn lex_less(a: &Vec<char>, b: &Vec<char>) -> (r: bool)
    ensures
        r == lex_lt(a@, b@),
{
    let mut i: usize = 0;
    assert(a@.skip(0) =~= a@);
    assert(b@.skip(0) =~= b@);
    while i < a.len() && i < b.len()
        invariant
            i <= a.len() && i <= b.len(),
            forall|k: int| 0 <= k < i ==> a@[k] == b@[k],
            lex_lt(a@, b@) == lex_lt(a@.skip(i as int), b@.skip(i as int)),
        decreases a.len() - i,
    {
        let x = a[i];
        let y = b[i];
        assert(a@.skip(i as int)[0] == a@[i as int]);
        assert(b@.skip(i as int)[0] == b@[i as int]);
        if x < y {
            return true;
        }
        if x > y {
            return false;
        }
        assert(a@.skip(i as int).drop_first() =~= a@.skip(i + 1));
        assert(b@.skip(i as int).drop_first() =~= b@.skip(i + 1));
        i = i + 1;
    }
    a.len() == i && b.len() > i
}

/// Position `a` is listed before position `b` in name order: a smaller key, or an
/// equal key and an earlier position.
pub open spec fn name_precedes(keys: Seq<Seq<char>>, a: int, b: int) -> bool {
    lex_lt(keys[a], keys[b]) || (keys[a] == keys[b] && a < b)
}

/// `order` lists each position of `keys` once, sorted by `name_precedes`.
pub open spec fn is_name_order(keys: Seq<Seq<char>>, order: Seq<usize>) -> bool {
    &&& order.len() == keys.len()
    &&& forall|p: int| 0 <= p < order.len() ==> #[trigger] order[p] < keys.len()
    &&& forall|p: int, q: int| 0 <= p < q < order.len() ==> name_precedes(keys, #[trigger] order[p] as int, #[trigger] order[q] as int)
}

/// The positions of `keys` in name order: ascending keys, equal keys in their
/// original order (a stable sort).
pub fn name_order(keys: &Vec<Vec<char>>) -> (order: Vec<usize>)
    ensures
        is_name_order(keys@.map_values(|k: Vec<char>| k@), order@),
{
    let ghost kv = keys@.map_values(|k: Vec<char>| k@);
    let mut order: Vec<usize> = Vec::new();
    let mut i: usize = 0;
    while i < keys.len()
        invariant
            i <= keys.len(),
            kv == keys@.map_values(|k: Vec<char>| k@),
            order.len() == i,
            forall|p: int| 0 <= p < order.len() ==> #[trigger] order@[p] < i,
            forall|p: int, q: int| 0 <= p < q < order.len() ==> name_precedes(kv, #[trigger] order@[p] as int, #[trigger] order@[q] as int),
        decreases keys.len() - i,
    {
        let mut pos: usize = 0;
        while pos < order.len() && !lex_less(&keys[i], &keys[order[pos]])
            invariant
                pos <= order.len(),
                i < keys.len(),
                kv == keys@.map_values(|k: Vec<char>| k@),
                forall|p: int| 0 <= p < order.len() ==> #[trigger] order@[p] < i,
                forall|p: int| 0 <= p < pos ==> !lex_lt(kv[i as int], kv[#[trigger] order@[p] as int]),
            decreases order.len() - pos,
        {
            pos = pos + 1;
        }
        let ghost old_order = order@;
        proof {
            assert forall|p: int| pos <= p < old_order.len() implies lex_lt(kv[i as int], kv[#[trigger] old_order[p] as int]) by {
                if p > pos {
                    assert(name_precedes(kv, old_order[pos as int] as int, old_order[p] as int));
                    lemma_lex_total(kv[old_order[pos as int] as int], kv[old_order[p] as int]);
                    if lex_lt(kv[old_order[pos as int] as int], kv[old_order[p] as int]) {
                        lemma_lex_transitive(kv[i as int], kv[old_order[pos as int] as int], kv[old_order[p] as int]);
                    }
                }
            }
        }
        order.insert(pos, i);
        proof {
            assert forall|p: int, q: int| 0 <= p < q < order.len() implies name_precedes(kv, #[trigger] order@[p] as int, #[trigger] order@[q] as int) by {
                let op = order@[p];
                let oq = order@[q];
                if p < pos && q < pos {
                    assert(op == old_order[p] && oq == old_order[q]);
                } else if p < pos && q == pos {
                    assert(op == old_order[p]);
                    assert(!lex_lt(kv[i as int], kv[op as int]));
                    lemma_lex_total(kv[i as int], kv[op as int]);
                } else if p < pos && q > pos {
                    assert(op == old_order[p] && oq == old_order[q - 1]);
                } else if p == pos {
                    assert(oq == old_order[q - 1]);
                } else {
                    assert(op == old_order[p - 1] && oq == old_order[q - 1]);
                }
            }
            assert forall|p: int| 0 <= p < order.len() implies #[trigger] order@[p] < i + 1 by {
                if p < pos {
                    assert(order@[p] == old_order[p]);
                } else if p > pos {
                    assert(order@[p] == old_order[p - 1]);
                }
            }
        }
        i = i + 1;
    }
    proof {
        assert forall|p: int, q: int| 0 <= p < q < order.len() implies order@[p] != order@[q] by {
            let a = order@[p] as int;
            let b = order@[q] as int;
            if a == b {
                assert(name_precedes(kv, a, b));
                lemma_lex_irreflexive(kv[a]);
            }
        }
    }
    order
}

} // verus!

verus! {

/// An application as plain values: id, name, version, publisher, install date,
/// estimated size, uninstall command, install location, Appx or not.
pub struct AppView {
    pub id: Seq<char>,
    pub name: Seq<char>,
    pub version: Seq<char>,
    pub publisher: Seq<char>,
    pub install_date: Seq<char>,
    pub estimated_size: u64,
    pub uninstall_string: Seq<char>,
    pub install_location: Seq<char>,
    pub is_uwp: bool,
}

/// The plain values of an application.
pub open spec fn app_view(a: InstalledApp) -> AppView {
    AppView {
        id: a.id@,
        name: a.name@,
        version: a.version@,
        publisher: a.publisher@,
        install_date: a.install_date@,
        estimated_size: a.estimated_size,
        uninstall_string: a.uninstall_string@,
        install_location: a.install_location@,
        is_uwp: a.is_uwp,
    }
}

/// The values read from one subkey of an Uninstall key.
pub struct RegistryApp {
    /// The Uninstall key's path.
    pub key_path: String,
    /// The subkey's name.
    pub sub: String,
    pub system_component: Option<u32>,
    pub display_name: Option<String>,
    pub uninstall_string: Option<String>,
    pub version: Option<String>,
    pub publisher: Option<String>,
    pub install_date: Option<String>,
    pub estimated_size_kb: Option<u32>,
    pub install_location: Option<String>,
    /// The values of the environment variables that `install_location`
    /// references (see `env_refs`), in order.
    pub location_env: Vec<Option<String>>,
}

/// The characters of an optional string (empty when absent).
pub open spec fn opt_text(o: Option<String>) -> Seq<char> {
    match o {
        Some(s) => s@,
        None => Seq::empty(),
    }
}

/// The characters of optional strings.
pub open spec fn opt_texts(v: Seq<Option<String>>) -> Seq<Option<Seq<char>>> {
    v.map_values(|o: Option<String>| match o {
        Some(x) => Some(x@),
        None => None,
    })
}

/// The program listed for a registry subkey: `None` for system components,
/// entries without a name, this application, `KB…` update entries and
/// entries without an uninstall command. The name is trimmed, the install date
/// formatted, the size converted from KiB, the install location expanded,
/// trimmed and stripped of trailing backslashes.
pub open spec fn registry_view(r: RegistryApp) -> Option<AppView> {
    let name = trim_spec(opt_text(r.display_name));
    let un = opt_text(r.uninstall_string);
    if r.system_component == Some(1u32) || name.len() == 0 || is_self_spec(name)
        || (is_prefix("KB"@, name) && contains_seq("update"@, lower_chars(name)))
        || trim_spec(un).len() == 0 {
        None
    } else {
        Some(AppView {
            id: r.key_path@ + "\\"@ + r.sub@,
            name,
            version: opt_text(r.version),
            publisher: opt_text(r.publisher),
            install_date: install_date_spec(opt_text(r.install_date)),
            estimated_size: ((match r.estimated_size_kb { Some(k) => k as int, None => 0int }) * 1024) as u64,
            uninstall_string: un,
            install_location: match r.install_location {
                Some(l) => crate::category::trim_end_char(trim_spec(expand_spec(l@, opt_texts(r.location_env@))), '\\'),
                None => Seq::empty(),
            },
            is_uwp: false,
        })
    }
}

fn text_or_empty(o: &Option<String>) -> (r: String)
    ensures
        r@ == opt_text(*o),
{
    match o {
        Some(s) => s.clone(),
        None => String::new(),
    }
}

/// The program listed for a registry subkey (see `registry_view`).
pub fn registry_app(r: &RegistryApp) -> (a: Option<InstalledApp>)
    ensures
        match a {
            Some(x) => registry_view(*r) == Some(app_view(x)),
            None => registry_view(*r) is None,
        },
{
    if r.system_component == Some(1u32) {
        return None;
    }
    let dn = text_or_empty(&r.display_name);
    let dnc = str_chars(dn.as_str());
    let name_c = trim(&dnc);
    if name_c.len() == 0 {
        return None;
    }
    let name = string_from_chars(&name_c);
    if is_self(name.as_str()) {
        return None;
    }
    let kb = str_chars("KB");
    let lname = to_lower(name.as_str());
    let lnc = str_chars(lname.as_str());
    let upd = str_chars("update");
    if starts_with(&name_c, &kb) && contains(&lnc, &upd) {
        return None;
    }
    let un = text_or_empty(&r.uninstall_string);
    let unc = str_chars(un.as_str());
    let unt = trim(&unc);
    if unt.len() == 0 {
        return None;
    }
    let location = match &r.install_location {
        Some(l) => {
            let e = expand_env(l.as_str(), &r.location_env);
            let ec = str_chars(e.as_str());
            let et = trim(&ec);
            let stripped = crate::category::trim_end_char_exec(&et, '\\');
            string_from_chars(&stripped)
        },
        None => String::new(),
    };
    let mut id = str_chars(r.key_path.as_str());
    id.push('\\');
    let sub = str_chars(r.sub.as_str());
    id.extend_from_slice(&sub);
    proof {
        reveal_strlit("\\");
        assert(id@ =~= r.key_path@ + "\\"@ + r.sub@);
    }
    let kb_size: u64 = match r.estimated_size_kb {
        Some(k) => k as u64,
        None => 0,
    };
    let d = text_or_empty(&r.install_date);
    Some(InstalledApp {
        id: string_from_chars(&id),
        name,
        version: text_or_empty(&r.version),
        publisher: text_or_empty(&r.publisher),
        install_date: format_install_date(d.as_str()),
        estimated_size: kb_size * 1024,
        uninstall_string: un,
        install_location: location,
        is_uwp: false,
    })
}

/// The key under which duplicate registrations of one program are recognised:
/// lower-cased name, version and uninstall command.
pub open spec fn dedup_key(v: AppView) -> Seq<char> {
    lower_chars(v.name) + "|"@ + v.version + "|"@ + v.uninstall_string
}

/// The listed registry programs, each duplicate registration after the first dropped.
pub open spec fn registry_views(rs: Seq<RegistryApp>) -> Seq<AppView>
    decreases rs.len(),
{
    if rs.len() == 0 {
        Seq::empty()
    } else {
        let prev = registry_views(rs.drop_last());
        match registry_view(rs.last()) {
            Some(v) => if exists|k: int| 0 <= k < prev.len() && #[trigger] dedup_key(prev[k]) == dedup_key(v) {
                prev
            } else {
                prev.push(v)
            },
            None => prev,
        }
    }
}

fn dedup_key_of(a: &InstalledApp) -> (k: Vec<char>)
    ensures
        k@ == dedup_key(app_view(*a)),
{
    let l = to_lower(a.name.as_str());
    let mut k = str_chars(l.as_str());
    k.push('|');
    let v = str_chars(a.version.as_str());
    k.extend_from_slice(&v);
    k.push('|');
    let u = str_chars(a.uninstall_string.as_str());
    k.extend_from_slice(&u);
    proof {
        reveal_strlit("|");
        assert(k@ =~= lower_chars(a.name@) + "|"@ + a.version@ + "|"@ + a.uninstall_string@);
    }
    k
}

/// The installed programs: the registry's (duplicates after the first dropped),
/// then the Appx packages, all ordered by lower-cased name (ties in that order).
pub open spec fn is_app_listing(rs: Seq<RegistryApp>, uwp: Seq<AppView>, out: Seq<AppView>) -> bool {
    let all = registry_views(rs) + uwp;
    let keys = all.map_values(|v: AppView| lower_chars(v.name));
    exists|order: Seq<usize>| #[trigger] is_name_order(keys, order) && out.len() == order.len()
        && forall|p: int| 0 <= p < out.len() ==> #[trigger] out[p] == all[order[p] as int]
}

fn copy_app(a: &InstalledApp) -> (r: InstalledApp)
    ensures
        app_view(r) == app_view(*a),
{
    InstalledApp {
        id: a.id.clone(),
        name: a.name.clone(),
        version: a.version.clone(),
        publisher: a.publisher.clone(),
        install_date: a.install_date.clone(),
        estimated_size: a.estimated_size,
        uninstall_string: a.uninstall_string.clone(),
        install_location: a.install_location.clone(),
        is_uwp: a.is_uwp,
    }
}

/// The list of installed programs (see `is_app_listing`).
pub fn list_installed_apps(records: &Vec<RegistryApp>, uwp: &Vec<InstalledApp>) -> (r: Vec<InstalledApp>)
    ensures
        is_app_listing(records@, uwp@.map_values(|a: InstalledApp| app_view(a)), r@.map_values(|a: InstalledApp| app_view(a))),
{
    let mut all: Vec<InstalledApp> = Vec::new();
    let mut keys: Vec<Vec<char>> = Vec::new();
    let mut i: usize = 0;
    while i < records.len()
        invariant
            i <= records.len(),
            all@.map_values(|a: InstalledApp| app_view(a)) == registry_views(records@.take(i as int)),
            keys.len() == all.len(),
            forall|k: int| 0 <= k < keys.len() ==> #[trigger] keys@[k]@ == dedup_key(app_view(all@[k])),
        decreases records.len() - i,
    {
        assert(records@.take(i + 1).drop_last() =~= records@.take(i as int));
        assert(records@.take(i + 1).last() == records@[i as int]);
        let ghost prev = all@.map_values(|a: InstalledApp| app_view(a));
        match registry_app(&records[i]) {
            None => {},
            Some(a) => {
                let k = dedup_key_of(&a);
                let mut j: usize = 0;
                let mut dup = false;
                while j < keys.len()
                    invariant
                        j <= keys.len(),
                        keys.len() == all.len(),
                        prev == all@.map_values(|a: InstalledApp| app_view(a)),
                        forall|q: int| 0 <= q < keys.len() ==> #[trigger] keys@[q]@ == dedup_key(app_view(all@[q])),
                        dup == exists|q: int| 0 <= q < j && #[trigger] dedup_key(prev[q]) == k@,
                    decreases keys.len() - j,
                {
                    if eq_chars(&keys[j], &k) {
                        assert(dedup_key(prev[j as int]) == k@);
                        dup = true;
                    }
                    j = j + 1;
                }
                if !dup {
                    all.push(a);
                    keys.push(k);
                    proof {
                        assert(all@.map_values(|a: InstalledApp| app_view(a)) =~= prev.push(app_view(a)));
                    }
                }
            },
        }
        i = i + 1;
    }
    assert(records@.take(records.len() as int) =~= records@);
    let ghost reg_part = all@.map_values(|a: InstalledApp| app_view(a));
    let ghost uv = uwp@.map_values(|a: InstalledApp| app_view(a));
    let n0 = all.len();
    let mut u: usize = 0;
    while u < uwp.len()
        invariant
            u <= uwp.len(),
            n0 == reg_part.len(),
            uv == uwp@.map_values(|a: InstalledApp| app_view(a)),
            all.len() == n0 + u,
            forall|q: int| 0 <= q < n0 ==> #[trigger] app_view(all@[q]) == reg_part[q],
            forall|q: int| 0 <= q < u ==> #[trigger] app_view(all@[n0 + q]) == uv[q],
        decreases uwp.len() - u,
    {
        all.push(copy_app(&uwp[u]));
        u = u + 1;
    }
    let ghost av = all@.map_values(|a: InstalledApp| app_view(a));
    proof {
        assert forall|q: int| 0 <= q < av.len() implies #[trigger] av[q] == (reg_part + uv)[q] by {
            if q < n0 {
                assert(app_view(all@[q]) == reg_part[q]);
            } else {
                assert(app_view(all@[n0 + (q - n0)]) == uv[q - n0]);
            }
        }
        assert(av =~= reg_part + uv);
    }
    let mut name_keys: Vec<Vec<char>> = Vec::new();
    let mut t: usize = 0;
    while t < all.len()
        invariant
            t <= all.len(),
            av == all@.map_values(|a: InstalledApp| app_view(a)),
            name_keys.len() == t,
            forall|q: int| 0 <= q < t ==> #[trigger] name_keys@[q]@ == lower_chars(av[q].name),
        decreases all.len() - t,
    {
        let l = to_lower(all[t].name.as_str());
        name_keys.push(str_chars(l.as_str()));
        t = t + 1;
    }
    assert(name_keys@.map_values(|k: Vec<char>| k@) =~= av.map_values(|v: AppView| lower_chars(v.name)));
    let order = name_order(&name_keys);
    let mut out: Vec<InstalledApp> = Vec::new();
    let mut p: usize = 0;
    while p < order.len()
        invariant
            p <= order.len(),
            order.len() == all.len(),
            forall|q: int| 0 <= q < order.len() ==> #[trigger] order@[q] < all.len(),
            av == all@.map_values(|a: InstalledApp| app_view(a)),
            out.len() == p,
            forall|q: int| 0 <= q < p ==> #[trigger] app_view(out@[q]) == av[order@[q] as int],
        decreases order.len() - p,
    {
        out.push(copy_app(&all[order[p]]));
        p = p + 1;
    }
    proof {
        let keys_v = av.map_values(|v: AppView| lower_chars(v.name));
        let ov = out@.map_values(|a: InstalledApp| app_view(a));
        assert(is_name_order(keys_v, order@) && ov.len() == order@.len()
            && forall|q: int| 0 <= q < ov.len() ==> #[trigger] ov[q] == av[order@[q] as int]);
    }
    out
}

} // verus!

verus! {

/// `s` cut at every `c` (std `str::split` with a character).
pub open spec fn split_on(s: Seq<char>, c: char) -> Seq<Seq<char>>
    decreases s.len(),
{
    match first_pos(s, c) {
        None => seq![s],
        Some(i) => {
            proof {
                lemma_first_pos_some(s, c);
            }
            seq![s.take(i)] + split_on(s.skip(i + 1), c)
        },
    }
}

fn split_on_exec(s: &Vec<char>, c: char) -> (r: Vec<Vec<char>>)
    ensures
        r@.map_values(|v: Vec<char>| v@) == split_on(s@, c),
{
    let mut r: Vec<Vec<char>> = Vec::new();
    let mut pos: usize = 0;
    assert(s@.skip(0) =~= s@);
    loop
        invariant_except_break
            split_on(s@, c) == r@.map_values(|v: Vec<char>| v@) + split_on(s@.skip(pos as int), c),
        invariant
            pos <= s.len(),
        ensures
            split_on(s@, c) == r@.map_values(|v: Vec<char>| v@),
        decreases s.len() - pos,
    {
        let rest = slice_of(s, pos, s.len());
        assert(rest@ =~= s@.skip(pos as int));
        proof {
            lemma_first_pos_some(rest@, c);
        }
        let ghost before = r@.map_values(|v: Vec<char>| v@);
        match first_pos_exec(&rest, c) {
            None => {
                r.push(rest);
                assert(r@.map_values(|v: Vec<char>| v@) =~= before + seq![s@.skip(pos as int)]);
                break;
            },
            Some(i) => {
                let piece = slice_of(&rest, 0, i);
                assert(piece@ =~= rest@.take(i as int));
                assert(rest@.skip(i + 1) =~= s@.skip(pos + i + 1));
                r.push(piece);
                assert(r@.map_values(|v: Vec<char>| v@) =~= before.push(piece@));
                assert(before + (seq![piece@] + split_on(s@.skip(pos + i + 1), c)) =~= before.push(piece@) + split_on(s@.skip(pos + i + 1), c));
                pos = pos + i + 1;
            },
        }
    }
    r
}

/// The name, publisher, location, full package name and version read from the
/// tab-separated fields of a package line (`N:`, `P:`, `L:`, `F:`, `V:`; values
/// trimmed; a later field of a kind replaces an earlier one).
pub open spec fn uwp_fields(fs: Seq<Seq<char>>) -> (Seq<char>, Seq<char>, Seq<char>, Seq<char>, Seq<char>)
    decreases fs.len(),
{
    if fs.len() == 0 {
        (Seq::empty(), Seq::empty(), Seq::empty(), Seq::empty(), Seq::empty())
    } else {
        let (n, p, l, f, v) = uwp_fields(fs.drop_last());
        let x = fs.last();
        if is_prefix("N:"@, x) {
            (trim_spec(x.skip(2)), p, l, f, v)
        } else if is_prefix("P:"@, x) {
            (n, trim_spec(x.skip(2)), l, f, v)
        } else if is_prefix("L:"@, x) {
            (n, p, trim_spec(x.skip(2)), f, v)
        } else if is_prefix("F:"@, x) {
            (n, p, l, trim_spec(x.skip(2)), v)
        } else if is_prefix("V:"@, x) {
            (n, p, l, f, trim_spec(x.skip(2)))
        } else {
            (n, p, l, f, v)
        }
    }
}

/// The Appx package described by one line of the package listing: lines start
/// with `N:` after trimming; packages without a name or full name, and this
/// application, are left out.
pub open spec fn uwp_view(line: Seq<char>) -> Option<AppView> {
    let t = trim_spec(line);
    if !is_prefix("N:"@, t) {
        None
    } else {
        let (n, p, l, f, v) = uwp_fields(split_on(t, '\t'));
        if n.len() == 0 || f.len() == 0 || is_self_spec(n) {
            None
        } else {
            Some(AppView {
                id: "uwp:"@ + f,
                name: n,
                version: v,
                publisher: p,
                install_date: Seq::empty(),
                estimated_size: 0,
                uninstall_string: Seq::empty(),
                install_location: l,
                is_uwp: true,
            })
        }
    }
}

/// The packages of the listing's lines, in order.
pub open spec fn uwp_views(lines: Seq<Seq<char>>) -> Seq<AppView>
    decreases lines.len(),
{
    if lines.len() == 0 {
        Seq::empty()
    } else {
        let prev = uwp_views(lines.drop_last());
        match uwp_view(lines.last()) {
            Some(v) => prev.push(v),
            None => prev,
        }
    }
}

fn field_value(x: &Vec<char>) -> (r: Vec<char>)
    requires
        x.len() >= 2,
    ensures
        r@ == trim_spec(x@.skip(2)),
{
    let rest = slice_of(x, 2, x.len());
    assert(rest@ =~= x@.skip(2));
    trim(&rest)
}

fn uwp_line(line: &Vec<char>) -> (r: Option<InstalledApp>)
    ensures
        match r {
            Some(a) => uwp_view(line@) == Some(app_view(a)),
            None => uwp_view(line@) is None,
        },
{
    let t = trim(line);
    let pn = str_chars("N:");
    let pp = str_chars("P:");
    let pl = str_chars("L:");
    let pf = str_chars("F:");
    let pv = str_chars("V:");
    proof {
        reveal_strlit("N:");
        reveal_strlit("P:");
        reveal_strlit("L:");
        reveal_strlit("F:");
        reveal_strlit("V:");
    }
    if !starts_with(&t, &pn) {
        return None;
    }
    let fields = split_on_exec(&t, '\t');
    let ghost fv = fields@.map_values(|v: Vec<char>| v@);
    let mut n: Vec<char> = Vec::new();
    let mut p: Vec<char> = Vec::new();
    let mut l: Vec<char> = Vec::new();
    let mut f: Vec<char> = Vec::new();
    let mut v: Vec<char> = Vec::new();
    let mut k: usize = 0;
    while k < fields.len()
        invariant
            k <= fields.len(),
            fv == fields@.map_values(|v: Vec<char>| v@),
            pn@ == "N:"@ && pp@ == "P:"@ && pl@ == "L:"@ && pf@ == "F:"@ && pv@ == "V:"@,
            pn@.len() == 2 && pp@.len() == 2 && pl@.len() == 2 && pf@.len() == 2 && pv@.len() == 2,
            uwp_fields(fv.take(k as int)) == (n@, p@, l@, f@, v@),
        decreases fields.len() - k,
    {
        assert(fv.take(k + 1).drop_last() =~= fv.take(k as int));
        assert(fv.take(k + 1).last() == fields@[k as int]@);
        let x = &fields[k];
        if starts_with(x, &pn) {
            n = field_value(x);
        } else if starts_with(x, &pp) {
            p = field_value(x);
        } else if starts_with(x, &pl) {
            l = field_value(x);
        } else if starts_with(x, &pf) {
            f = field_value(x);
        } else if starts_with(x, &pv) {
            v = field_value(x);
        }
        k = k + 1;
    }
    assert(fv.take(fields.len() as int) =~= fv);
    let name = string_from_chars(&n);
    if n.len() == 0 || f.len() == 0 || is_self(name.as_str()) {
        return None;
    }
    let mut id = str_chars("uwp:");
    id.extend_from_slice(&f);
    proof {
        assert(id@ =~= "uwp:"@ + f@);
        assert(fv == split_on(trim_spec(line@), '\t'));
        assert(uwp_fields(split_on(trim_spec(line@), '\t')) == (n@, p@, l@, f@, v@));
    }
    Some(InstalledApp {
        id: string_from_chars(&id),
        name,
        version: string_from_chars(&v),
        publisher: string_from_chars(&p),
        install_date: String::new(),
        estimated_size: 0,
        uninstall_string: String::new(),
        install_location: string_from_chars(&l),
        is_uwp: true,
    })
}

/// The Appx packages of the PowerShell package listing (see `uwp_view`).
pub fn parse_uwp_output(out: &str) -> (r: Vec<InstalledApp>)
    ensures
        r@.map_values(|a: InstalledApp| app_view(a)) == uwp_views(crate::util::lines_spec(out@)),
{
    let chars = str_chars(out);
    let lines = crate::util::split_lines(&chars);
    let ghost lv = crate::util::lines_spec(out@);
    let mut r: Vec<InstalledApp> = Vec::new();
    let mut i: usize = 0;
    while i < lines.len()
        invariant
            i <= lines.len(),
            chars@ == out@,
            lv == crate::util::lines_spec(out@),
            lines@.len() == lv.len(),
            forall|q: int| 0 <= q < lines@.len() ==> #[trigger] lines@[q]@ == lv[q],
            r@.map_values(|a: InstalledApp| app_view(a)) == uwp_views(lv.take(i as int)),
        decreases lines.len() - i,
    {
        assert(lv.take(i + 1).drop_last() =~= lv.take(i as int));
        assert(lv.take(i + 1).last() == lines@[i as int]@);
        let ghost before = r@.map_values(|a: InstalledApp| app_view(a));
        match uwp_line(&lines[i]) {
            Some(a) => {
                r.push(a);
                assert(r@.map_values(|a: InstalledApp| app_view(a)) =~= before.push(app_view(a)));
            },
            None => {},
        }
        i = i + 1;
    }
    assert(lv.take(lines.len() as int) =~= lv);
    r
}

} // verus!

verus! {

/// Most directories a remains search reports.
pub const MAX_RESIDUES: usize = 50;

/// A directory left behind by an application.
pub struct ResidueDir {
    pub path: String,
    pub size: u64,
    /// Why it matched: `名称匹配`, `发布者匹配` or `注册表安装位置`.
    pub reason: String,
}

/// A remains directory chosen for removal, with the size measured when found.
pub struct ResidueInput {
    pub path: String,
    pub size: u64,
}

/// A top-level directory of a program root, as listed on disk.
pub struct ResidueCandidate {
    pub path: String,
    /// Its own name (the last component of the path).
    pub dir_name: String,
}

/// A directory chosen to report, before its size is measured: its normalised
/// path and why it matched.
pub struct ResiduePick {
    pub path: String,
    pub reason: String,
}

/// A reported directory as (path, size, reason).
pub open spec fn residue_parts(d: ResidueDir) -> (Seq<char>, u64, Seq<char>) {
    (d.path@, d.size, d.reason@)
}

/// A chosen directory as (normalised path, reason).
pub open spec fn pick_parts(p: ResiduePick) -> (Seq<char>, Seq<char>) {
    (p.path@, p.reason@)
}

/// The candidates, as (path, name), whose normalised name is not empty and
/// matches the program (`dir_match_spec`), as (path, reason), in order.
pub open spec fn candidate_offers(name: Seq<char>, tokens: Seq<Seq<char>>, dirs: Seq<(Seq<char>, Seq<char>)>) -> Seq<(Seq<char>, Seq<char>)>
    decreases dirs.len(),
{
    if dirs.len() == 0 {
        Seq::empty()
    } else {
        let prev = candidate_offers(name, tokens, dirs.drop_last());
        let dn = normalize_text_spec(dirs.last().1);
        match dir_match_spec(dn, name, tokens) {
            Some(reason) => if dn.len() > 0 { prev.push((dirs.last().0, reason)) } else { prev },
            None => prev,
        }
    }
}

/// The directories offered for reporting, as (path, reason): the registered
/// install location when it lies under a root, then the matching candidates.
pub open spec fn residue_offers(name: Seq<char>, tokens: Seq<Seq<char>>, install: Option<Seq<char>>,
    roots: Seq<Seq<char>>, dirs: Seq<(Seq<char>, Seq<char>)>) -> Seq<(Seq<char>, Seq<char>)>
{
    let first = match install {
        Some(p) => if crate::clean::under_any_root_spec(p, roots) {
            seq![(p, "注册表安装位置"@)]
        } else {
            Seq::empty()
        },
        None => Seq::empty(),
    };
    first + candidate_offers(name, tokens, dirs)
}

/// An optional path by its characters.
pub open spec fn opt_path(o: Option<String>) -> Option<Seq<char>> {
    match o {
        Some(p) => Some(p@),
        None => None,
    }
}

/// `key` is the lower-cased path of one of the picks.
pub open spec fn picked(picks: Seq<(Seq<char>, Seq<char>)>, key: Seq<char>) -> bool {
    exists|j: int| 0 <= j < picks.len() && lower_chars(#[trigger] picks[j].0) == key
}

/// The offers taken, as (normalised path, reason), in order: an offer is
/// skipped when its normalised path is empty or was taken already (compared
/// lower-cased), and none is taken once `MAX_RESIDUES` were.
pub open spec fn residue_picks(offers: Seq<(Seq<char>, Seq<char>)>) -> Seq<(Seq<char>, Seq<char>)>
    decreases offers.len(),
{
    if offers.len() == 0 {
        Seq::empty()
    } else {
        let prev = residue_picks(offers.drop_last());
        let np = crate::util::normalize_path_spec(offers.last().0);
        if prev.len() < MAX_RESIDUES && np.len() > 0 && !picked(prev, lower_chars(np)) {
            prev.push((np, offers.last().1))
        } else {
            prev
        }
    }
}

/// The remains search is skipped for a program whose normalised name is
/// shorter than two characters, and for this application itself.
pub open spec fn residue_search_skipped(display_name: Seq<char>) -> bool {
    normalize_text_spec(display_name).len() < 2
        || contains_seq("diskclear"@, normalize_text_spec(display_name))
        || contains_seq("盘清"@, display_name)
}

/// The search for the directories an application left behind: its registered
/// install location and the top-level directories of the program roots whose
/// names match the program's name or publisher. Each directory is taken once
/// (compared by lower-cased normalised path), at most `MAX_RESIDUES`.
pub struct ResidueMatcher {
    name: String,
    tokens: Vec<String>,
    picks: Vec<ResiduePick>,
    seen: Vec<String>,
}

impl ResidueMatcher {
    /// The normalised program name matched against directory names.
    pub closed spec fn name(&self) -> Seq<char> {
        self.name@
    }

    /// The publisher tokens matched against directory names.
    pub closed spec fn tokens(&self) -> Seq<Seq<char>> {
        self.tokens@.map_values(|t: String| t@)
    }

    /// The directories taken so far, as (normalised path, reason).
    pub closed spec fn picks(&self) -> Seq<(Seq<char>, Seq<char>)> {
        self.picks@.map_values(|p: ResiduePick| pick_parts(p))
    }

    /// Directories taken are recorded by key, once each, at most `MAX_RESIDUES`.
    pub closed spec fn wf(&self) -> bool {
        &&& self.picks@.len() == self.seen@.len()
        &&& self.picks@.len() <= MAX_RESIDUES
        &&& forall|i: int| 0 <= i < self.seen@.len() ==> #[trigger] self.seen@[i]@ == lower_chars(self.picks@[i].path@)
    }

    /// A search for a program's remains, or `None` when it is skipped
    /// (`residue_search_skipped`).
    pub fn new(display_name: &str, publisher: &str) -> (r: Option<ResidueMatcher>)
        ensures
            match r {
                Some(m) => m.wf() && m.name() == normalize_text_spec(display_name@)
                    && m.tokens() == publisher_tokens_spec(publisher@) && m.picks().len() == 0
                    && !residue_search_skipped(display_name@),
                None => residue_search_skipped(display_name@),
            },
    {
        let name = normalize_text(display_name);
        let tokens = publisher_tokens(publisher);
        let nc = str_chars(name.as_str());
        if nc.len() < 2 {
            return None;
        }
        let dc = str_chars("diskclear");
        let dn = str_chars(display_name);
        let pq = str_chars("盘清");
        if contains(&nc, &dc) || contains(&dn, &pq) {
            return None;
        }
        let m = ResidueMatcher { name, tokens, picks: Vec::new(), seen: Vec::new() };
        assert(m.picks() =~= Seq::<(Seq<char>, Seq<char>)>::empty());
        Some(m)
    }

    /// Why a top-level directory of a root matches the program (see
    /// `dir_match_spec`), judged on its normalised name; `None` when that is empty.
    pub fn match_dir(&self, dir_name: &str) -> (r: Option<&'static str>)
        ensures
            match r {
                Some(s) => normalize_text_spec(dir_name@).len() > 0
                    && dir_match_spec(normalize_text_spec(dir_name@), self.name(), self.tokens()) == Some(s@),
                None => normalize_text_spec(dir_name@).len() == 0
                    || dir_match_spec(normalize_text_spec(dir_name@), self.name(), self.tokens()) is None,
            },
    {
        let dn = normalize_text(dir_name);
        let dc = str_chars(dn.as_str());
        if dc.len() == 0 {
            return None;
        }
        dir_match_reason(dn.as_str(), self.name.as_str(), self.tokens.as_slice())
    }

    /// Offers a directory: it is taken (normalised, with the reason) when room is
    /// left, its normalised path is not empty and it was not taken already.
    pub fn offer(&mut self, path: &str, reason: &str)
        requires
            old(self).wf(),
        ensures
            final(self).wf(),
            final(self).name() == old(self).name(),
            final(self).tokens() == old(self).tokens(),
            ({
                let np = crate::util::normalize_path_spec(path@);
                final(self).picks() == if old(self).picks().len() < MAX_RESIDUES && np.len() > 0
                    && !picked(old(self).picks(), lower_chars(np)) {
                    old(self).picks().push((np, reason@))
                } else {
                    old(self).picks()
                }
            }),
    {
        let ghost pv = self.picks();
        let np = crate::util::normalize_path(path);
        if self.picks.len() >= MAX_RESIDUES {
            return;
        }
        let npc = str_chars(np.as_str());
        if npc.len() == 0 {
            return;
        }
        let key = to_lower(np.as_str());
        let mut i: usize = 0;
        while i < self.seen.len()
            invariant
                i <= self.seen.len(),
                self.wf(),
                pv == self.picks(),
                key@ == lower_chars(np@),
                np@ == crate::util::normalize_path_spec(path@),
                forall|j: int| 0 <= j < i ==> #[trigger] self.seen@[j]@ != key@,
            decreases self.seen.len() - i,
        {
            if self.seen[i] == key {
                proof {
                    assert(lower_chars(pv[i as int].0) == key@);
                    assert(picked(pv, key@));
                }
                return;
            }
            i = i + 1;
        }
        proof {
            assert forall|j: int| 0 <= j < pv.len() implies lower_chars(#[trigger] pv[j].0) != key@ by {
                assert(self.seen@[j]@ == lower_chars(self.picks@[j].path@));
            }
        }
        let ghost old_picks = self.picks@;
        let ghost old_seen = self.seen@;
        let ghost npv = np@;
        self.seen.push(key);
        self.picks.push(ResiduePick { path: np, reason: reason.to_owned() });
        proof {
            assert(self.picks() =~= pv.push((npv, reason@)));
            assert forall|i: int| 0 <= i < self.seen@.len() implies #[trigger] self.seen@[i]@ == lower_chars(self.picks@[i].path@) by {
                if i < old_picks.len() {
                    assert(self.picks@[i] == old_picks[i]);
                    assert(self.seen@[i] == old_seen[i]);
                }
            }
        }
    }

    /// The directories taken, in the order taken.
    pub fn into_picks(self) -> (r: Vec<ResiduePick>)
        ensures
            r@.map_values(|p: ResiduePick| pick_parts(p)) == self.picks(),
    {
        self.picks
    }
}

/// Chooses the remains directories to report (see `residue_picks` and
/// `residue_offers`): `install_dir` is the registered install location (see
/// `install_location_dir`) when it is a directory on disk, `dirs` the top-level
/// directories of the `roots`. Nothing is chosen when the search is skipped.
/// The caller measures each chosen directory and orders them with `rank_residues`.
pub fn scan_residues(display_name: &str, publisher: &str, install_dir: Option<String>, roots: &Vec<String>,
    dirs: &Vec<ResidueCandidate>) -> (r: Vec<ResiduePick>)
    ensures
        residue_search_skipped(display_name@) ==> r@.len() == 0,
        !residue_search_skipped(display_name@) ==> r@.map_values(|p: ResiduePick| pick_parts(p)) == residue_picks(
            residue_offers(normalize_text_spec(display_name@), publisher_tokens_spec(publisher@),
                opt_path(install_dir),
                roots@.map_values(|s: String| s@),
                dirs@.map_values(|d: ResidueCandidate| (d.path@, d.dir_name@)))),
{
    let mut m = match ResidueMatcher::new(display_name, publisher) {
        Some(m) => m,
        None => return Vec::new(),
    };
    let ghost name = m.name();
    let ghost tokens = m.tokens();
    let ghost dv = dirs@.map_values(|d: ResidueCandidate| (d.path@, d.dir_name@));
    let ghost install = opt_path(install_dir);
    let ghost rv = roots@.map_values(|s: String| s@);
    let ghost first: Seq<(Seq<char>, Seq<char>)> = match install {
        Some(p) => if crate::clean::under_any_root_spec(p, rv) { seq![(p, "注册表安装位置"@)] } else { Seq::empty() },
        None => Seq::empty(),
    };
    proof {
        assert(residue_picks(Seq::<(Seq<char>, Seq<char>)>::empty()) =~= m.picks());
    }
    match &install_dir {
        Some(il) => {
            if crate::clean::under_any_root(il.as_str(), roots.as_slice()) {
                m.offer(il.as_str(), "注册表安装位置");
                proof {
                    reveal_strlit("注册表安装位置");
                    let one = seq![(il@, "注册表安装位置"@)];
                    assert(one.drop_last() =~= Seq::<(Seq<char>, Seq<char>)>::empty());
                    assert(residue_picks(one) == m.picks());
                }
            }
        },
        None => {},
    }
    assert(first == residue_offers(name, tokens, install, rv, Seq::empty()));
    assert(m.picks() == residue_picks(first));
    let mut k: usize = 0;
    while k < dirs.len()
        invariant
            k <= dirs.len(),
            m.wf(),
            m.name() == name && m.tokens() == tokens,
            dv == dirs@.map_values(|d: ResidueCandidate| (d.path@, d.dir_name@)),
            m.picks() == residue_picks(first + candidate_offers(name, tokens, dv.take(k as int))),
        decreases dirs.len() - k,
    {
        let ghost before = first + candidate_offers(name, tokens, dv.take(k as int));
        assert(dv.take(k + 1).drop_last() =~= dv.take(k as int));
        assert(dv.take(k + 1).last() == (dirs@[k as int].path@, dirs@[k as int].dir_name@));
        match m.match_dir(dirs[k].dir_name.as_str()) {
            Some(reason) => {
                m.offer(dirs[k].path.as_str(), reason);
                proof {
                    let after = first + candidate_offers(name, tokens, dv.take(k + 1));
                    assert(after =~= before.push((dirs@[k as int].path@, reason@)));
                    assert(after.drop_last() =~= before);
                }
            },
            None => {
                assert(first + candidate_offers(name, tokens, dv.take(k + 1)) == before);
            },
        }
        k = k + 1;
    }
    assert(dv.take(dirs.len() as int) =~= dv);
    m.into_picks()
}

/// The chosen directories with their measured sizes (`sizes[i]` for
/// `picks[i]`), largest first (ties in the order chosen).
pub fn rank_residues(picks: &Vec<ResiduePick>, sizes: &Vec<u64>) -> (r: Vec<ResidueDir>)
    requires
        sizes.len() == picks.len(),
    ensures
        is_stable_desc_sort(
            Seq::new(picks@.len(), |i: int| (picks@[i].path@, sizes@[i], picks@[i].reason@)),
            sizes@,
            r@.map_values(|d: ResidueDir| residue_parts(d))),
{
    let ghost fv = Seq::new(picks@.len(), |i: int| (picks@[i].path@, sizes@[i], picks@[i].reason@));
    let order = crate::order::desc_order(sizes);
    let mut out: Vec<ResidueDir> = Vec::new();
    let mut p: usize = 0;
    while p < order.len()
        invariant
            p <= order.len(),
            order.len() == sizes.len() == picks.len(),
            crate::order::is_desc_order(sizes@, order@),
            fv == Seq::new(picks@.len(), |i: int| (picks@[i].path@, sizes@[i], picks@[i].reason@)),
            out.len() == p,
            forall|q: int| 0 <= q < p ==> residue_parts(#[trigger] out@[q]) == fv[order@[q] as int],
        decreases order.len() - p,
    {
        let j = order[p];
        let d = &picks[j];
        out.push(ResidueDir { path: d.path.clone(), size: sizes[j], reason: d.reason.clone() });
        p = p + 1;
    }
    proof {
        let ov = out@.map_values(|d: ResidueDir| residue_parts(d));
        assert(crate::order::is_desc_order(sizes@, order@) && ov.len() == order@.len()
            && forall|q: int| 0 <= q < ov.len() ==> #[trigger] ov[q] == fv[order@[q] as int]);
    }
    out
}

/// The registered install location as a candidate directory: trimmed, trailing
/// backslashes removed; `None` when empty.
pub fn install_location_dir(install_location: &str) -> (r: Option<String>)
    ensures
        match r {
            Some(d) => install_location@.len() > 0
                && d@ == crate::category::trim_end_char(trim_spec(install_location@), '\\'),
            None => install_location@.len() == 0,
        },
{
    let v = str_chars(install_location);
    if v.len() == 0 {
        return None;
    }
    let t = trim(&v);
    let s = crate::category::trim_end_char_exec(&t, '\\');
    Some(string_from_chars(&s))
}

/// A remains search never takes more than `MAX_RESIDUES` directories, nor one
/// directory twice (paths compared case-insensitively), whatever is offered.
pub proof fn residues_distinct_and_bounded(offers: Seq<(Seq<char>, Seq<char>)>)
    ensures
        residue_picks(offers).len() <= MAX_RESIDUES,
        forall|i: int, j: int| 0 <= i < j < residue_picks(offers).len()
            ==> lower_chars(#[trigger] residue_picks(offers)[i].0) != lower_chars(#[trigger] residue_picks(offers)[j].0),
    decreases offers.len(),
{
    if offers.len() > 0 {
        residues_distinct_and_bounded(offers.drop_last());
        let prev = residue_picks(offers.drop_last());
        let np = crate::util::normalize_path_spec(offers.last().0);
        if prev.len() < MAX_RESIDUES && np.len() > 0 && !picked(prev, lower_chars(np)) {
            let cur = prev.push((np, offers.last().1));
            assert forall|i: int, j: int| 0 <= i < j < cur.len() implies lower_chars(#[trigger] cur[i].0) != lower_chars(#[trigger] cur[j].0) by {
                if j == prev.len() {
                    assert(cur[i] == prev[i]);
                    if lower_chars(prev[i].0) == lower_chars(np) {
                        assert(picked(prev, lower_chars(np)));
                    }
                } else {
                    assert(cur[i] == prev[i] && cur[j] == prev[j]);
                }
            }
        }
    }
}

} // verus!
