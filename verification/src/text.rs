//! Character-level text helpers shared by the path, naming and parsing logic.
//!
//! Strings are handled as sequences of `char`.  Unicode case mapping and the
//! alphanumeric class come from std and are named here rather than restated:
//! their tables are std's business, not this library's.  White space is the
//! short fixed list of Unicode's White_Space property and is stated in full.
use vstd::prelude::*;

verus! {

/// Result of std's `str::to_lowercase` on a string with these characters.
pub uninterp spec fn lower_chars(s: Seq<char>) -> Seq<char>;

/// Result of std's `str::to_uppercase` on a string with these characters.
pub uninterp spec fn upper_chars(s: Seq<char>) -> Seq<char>;

/// Result of std's `char::is_alphanumeric`.
pub uninterp spec fn char_is_alphanumeric(c: char) -> bool;

/// Unicode's White_Space property (PropList.txt), which std's
/// `char::is_whitespace` reports: tab to carriage return, space, next line,
/// no-break space, ogham space mark, en quad to hair space, line and paragraph
/// separators, narrow no-break space, medium mathematical space and
/// ideographic space.
pub open spec fn char_is_whitespace(c: char) -> bool {
    let n = c as u32;
    ||| 0x9 <= n <= 0xD
    ||| n == 0x20
    ||| n == 0x85
    ||| n == 0xA0
    ||| n == 0x1680
    ||| 0x2000 <= n <= 0x200A
    ||| n == 0x2028
    ||| n == 0x2029
    ||| n == 0x202F
    ||| n == 0x205F
    ||| n == 0x3000
}

/// std `String::push`: the string with one more character at its end.
#[verifier::external_body]
fn string_push(s: &mut String, c: char)
    ensures
        final(s)@ == old(s)@.push(c),
{
    s.push(c)
}

/// The string made of exactly these characters.
pub fn string_from_chars(v: &[char]) -> (s: String)
    ensures
        s@ == v@,
{
    let mut s = String::new();
    let mut i: usize = 0;
    while i < v.len()
        invariant
            i <= v.len(),
            s@ == v@.take(i as int),
        decreases v.len() - i,
    {
        string_push(&mut s, v[i]);
        assert(v@.take(i + 1) =~= v@.take(i as int).push(v@[i as int]));
        i = i + 1;
    }
    assert(v@.take(v.len() as int) =~= v@);
    s
}

/// std `str::to_lowercase`; its result is named by `lower_chars`.
#[verifier::external_body]
pub(crate) fn to_lower(s: &str) -> (r: String)
    ensures
        r@ == lower_chars(s@),
{
    s.to_lowercase()
}

/// std `str::to_uppercase`; its result is named by `upper_chars`.
#[verifier::external_body]
pub(crate) fn to_upper(s: &str) -> (r: String)
    ensures
        r@ == upper_chars(s@),
{
    s.to_uppercase()
}

/// std `char::is_alphanumeric`; its result is named by `char_is_alphanumeric`.
#[verifier::external_body]
pub(crate) fn is_alphanumeric(c: char) -> (b: bool)
    ensures
        b == char_is_alphanumeric(c),
{
    c.is_alphanumeric()
}

/// std `char::is_whitespace`: whether the character has Unicode's White_Space
/// property (`char_is_whitespace`).
#[verifier::external_body]
pub(crate) fn is_whitespace(c: char) -> (b: bool)
    ensures
        b == char_is_whitespace(c),
{
    c.is_whitespace()
}

/// The characters of a string slice.
pub fn str_chars(s: &str) -> (v: Vec<char>)
    ensures
        v@ == s@,
{
    let mut v: Vec<char> = Vec::new();
    for c in it: s.chars()
        invariant
            v@ == it.seq().take(it.index() as int),
            it.seq() == s@,
    {
        v.push(c);
    }
    v
}

/// Lowercase of a character sequence, as std computes it for the string.
pub fn lower_of(v: &[char]) -> (r: Vec<char>)
    ensures
        r@ == lower_chars(v@),
{
    let s = string_from_chars(v);
    let l = to_lower(s.as_str());
    str_chars(l.as_str())
}

/// `p` is a prefix of `s`.
pub open spec fn is_prefix(p: Seq<char>, s: Seq<char>) -> bool {
    p.len() <= s.len() && s.take(p.len() as int) == p
}

/// `p` is a suffix of `s`.
pub open spec fn is_suffix(p: Seq<char>, s: Seq<char>) -> bool {
    p.len() <= s.len() && s.skip(s.len() - p.len()) == p
}

/// `p` occurs in `s` starting at position `i`.
pub open spec fn occurs_at(p: Seq<char>, s: Seq<char>, i: int) -> bool {
    0 <= i && i + p.len() <= s.len() && s.subrange(i, i + p.len()) == p
}

/// `p` occurs somewhere in `s`.
pub open spec fn contains_seq(p: Seq<char>, s: Seq<char>) -> bool {
    exists|i: int| occurs_at(p, s, i)
}

/// Whether `p` is a prefix of `s`.
pub fn starts_with(s: &[char], p: &[char]) -> (b: bool)
    ensures
        b == is_prefix(p@, s@),
{
    if p.len() > s.len() {
        return false;
    }
    let mut i: usize = 0;
    while i < p.len()
        invariant
            p.len() <= s.len(),
            i <= p.len(),
            forall|k: int| 0 <= k < i ==> s@[k] == p@[k],
        decreases p.len() - i,
    {
        if s[i] != p[i] {
            assert(s@.take(p.len() as int)[i as int] != p@[i as int]);
            return false;
        }
        i = i + 1;
    }
    assert(s@.take(p.len() as int) =~= p@);
    true
}

/// Whether `p` occurs in `s` at position `at`.
pub fn matches_at(s: &[char], p: &[char], at: usize) -> (b: bool)
    ensures
        b == occurs_at(p@, s@, at as int),
{
    if at > s.len() || p.len() > s.len() - at {
        return false;
    }
    let mut i: usize = 0;
    while i < p.len()
        invariant
            at + p.len() <= s.len(),
            i <= p.len(),
            forall|k: int| 0 <= k < i ==> s@[at + k] == p@[k],
        decreases p.len() - i,
    {
        if s[at + i] != p[i] {
            assert(s@.subrange(at as int, at + p.len())[i as int] != p@[i as int]);
            return false;
        }
        i = i + 1;
    }
    assert(s@.subrange(at as int, at + p.len()) =~= p@);
    true
}

/// Whether `p` is a suffix of `s`.
pub fn ends_with(s: &[char], p: &[char]) -> (b: bool)
    ensures
        b == is_suffix(p@, s@),
{
    if p.len() > s.len() {
        return false;
    }
    let r = matches_at(s, p, s.len() - p.len());
    assert(s@.skip(s.len() - p.len()) =~= s@.subrange(s.len() - p.len(), s.len() as int));
    r
}

/// First position at which `p` occurs in `s`, if any.
pub fn find_seq(s: &[char], p: &[char]) -> (r: Option<usize>)
    ensures
        match r {
            Some(i) => occurs_at(p@, s@, i as int) && forall|j: int| 0 <= j < i ==> !occurs_at(p@, s@, j),
            None => !contains_seq(p@, s@),
        },
{
    if p.len() > s.len() {
        return None;
    }
    if p.len() == 0 {
        assert(s@.subrange(0, 0) =~= p@);
        return Some(0);
    }
    let mut i: usize = 0;
    while i <= s.len() - p.len()
        invariant
            1 <= p.len() <= s.len(),
            i <= s.len() - p.len() + 1,
            forall|j: int| 0 <= j < i ==> !occurs_at(p@, s@, j),
        decreases s.len() - p.len() + 1 - i,
    {
        if matches_at(s, p, i) {
            return Some(i);
        }
        i = i + 1;
    }
    None
}

/// Whether `p` occurs in `s`.
pub fn contains(s: &[char], p: &[char]) -> (b: bool)
    ensures
        b == contains_seq(p@, s@),
{
    find_seq(s, p).is_some()
}

/// First position holding `c`, if any.
pub fn find_char(s: &[char], c: char) -> (r: Option<usize>)
    ensures
        match r {
            Some(i) => i < s.len() && s@[i as int] == c && forall|j: int| 0 <= j < i ==> s@[j] != c,
            None => forall|j: int| 0 <= j < s.len() ==> s@[j] != c,
        },
{
    let mut i: usize = 0;
    while i < s.len()
        invariant
            i <= s.len(),
            forall|j: int| 0 <= j < i ==> s@[j] != c,
        decreases s.len() - i,
    {
        if s[i] == c {
            return Some(i);
        }
        i = i + 1;
    }
    None
}

/// Last position holding `c`, if any.
pub fn rfind_char(s: &[char], c: char) -> (r: Option<usize>)
    ensures
        match r {
            Some(i) => i < s.len() && s@[i as int] == c && forall|j: int| i < j < s.len() ==> s@[j] != c,
            None => forall|j: int| 0 <= j < s.len() ==> s@[j] != c,
        },
{
    let mut i: usize = s.len();
    while i > 0
        invariant
            i <= s.len(),
            forall|j: int| i <= j < s.len() ==> s@[j] != c,
        decreases i,
    {
        if s[i - 1] == c {
            return Some(i - 1);
        }
        i = i - 1;
    }
    None
}

/// The characters `s[from..to]`.
pub fn slice_of(s: &[char], from: usize, to: usize) -> (r: Vec<char>)
    requires
        from <= to <= s.len(),
    ensures
        r@ == s@.subrange(from as int, to as int),
{
    let mut r: Vec<char> = Vec::new();
    let mut i = from;
    while i < to
        invariant
            from <= i <= to <= s.len(),
            r@ == s@.subrange(from as int, i as int),
        decreases to - i,
    {
        r.push(s[i]);
        proof {
            assert(s@.subrange(from as int, i + 1) =~= s@.subrange(from as int, i as int).push(s@[i as int]));
        }
        i = i + 1;
    }
    r
}

/// Position of the first character that is not whitespace (or the length).
pub open spec fn trim_start_index(s: Seq<char>) -> int
    decreases s.len(),
{
    if s.len() == 0 {
        0
    } else if char_is_whitespace(s[0]) {
        1 + trim_start_index(s.drop_first())
    } else {
        0
    }
}

/// `s` without leading and trailing whitespace, as std's `str::trim`.
pub open spec fn trim_spec(s: Seq<char>) -> Seq<char> {
    let a = trim_start_index(s);
    let t = s.skip(a);
    t.take(t.len() - trim_start_index(t.reverse()))
}

proof fn lemma_trim_start_index(s: Seq<char>)
    ensures
        0 <= trim_start_index(s) <= s.len(),
        forall|k: int| 0 <= k < trim_start_index(s) ==> char_is_whitespace(#[trigger] s[k]),
        trim_start_index(s) < s.len() ==> !char_is_whitespace(s[trim_start_index(s)]),
    decreases s.len(),
{
    if s.len() > 0 && char_is_whitespace(s[0]) {
        lemma_trim_start_index(s.drop_first());
        assert forall|k: int| 0 <= k < trim_start_index(s) implies char_is_whitespace(#[trigger] s[k]) by {
            if k > 0 {
                assert(s[k] == s.drop_first()[k - 1]);
            }
        }
    }
}

proof fn lemma_trim_start_unique(s: Seq<char>, a: int)
    requires
        0 <= a <= s.len(),
        forall|k: int| 0 <= k < a ==> char_is_whitespace(#[trigger] s[k]),
        a < s.len() ==> !char_is_whitespace(s[a]),
    ensures
        trim_start_index(s) == a,
    decreases s.len(),
{
    if s.len() > 0 && a > 0 {
        assert(char_is_whitespace(s[0]));
        assert forall|k: int| 0 <= k < a - 1 implies char_is_whitespace(#[trigger] s.drop_first()[k]) by {
            assert(s.drop_first()[k] == s[k + 1]);
        }
        lemma_trim_start_unique(s.drop_first(), a - 1);
    }
}

/// `s` without leading and trailing whitespace (std `str::trim`).
pub fn trim(s: &[char]) -> (r: Vec<char>)
    ensures
        r@ == trim_spec(s@),
{
    let mut a: usize = 0;
    while a < s.len() && is_whitespace(s[a])
        invariant
            a <= s.len(),
            forall|k: int| 0 <= k < a ==> char_is_whitespace(#[trigger] s@[k]),
        decreases s.len() - a,
    {
        a = a + 1;
    }
    proof {
        lemma_trim_start_unique(s@, a as int);
    }
    let mut b: usize = s.len();
    while b > a && is_whitespace(s[b - 1])
        invariant
            a <= b <= s.len(),
            forall|k: int| b <= k < s.len() ==> char_is_whitespace(#[trigger] s@[k]),
        decreases b - a,
    {
        b = b - 1;
    }
    proof {
        let t = s@.skip(a as int);
        let rt = t.reverse();
        let n = (s.len() - b) as int;
        assert forall|k: int| 0 <= k < n implies char_is_whitespace(#[trigger] rt[k]) by {
            assert(rt[k] == t[t.len() - 1 - k]);
            assert(t[t.len() - 1 - k] == s@[s.len() - 1 - k]);
        }
        if n < rt.len() {
            assert(rt[n] == s@[b - 1]);
        }
        lemma_trim_start_unique(rt, n);
        assert(t.take(t.len() - n) =~= s@.subrange(a as int, b as int));
    }
    slice_of(s, a, b)
}

/// Decimal digit character for `n` in `0..10`.
pub open spec fn digit_char(n: int) -> char {
    (48 + n) as char
}

/// Decimal representation of `n` without leading zeros.
pub open spec fn dec_digits(n: nat) -> Seq<char>
    decreases n,
{
    if n < 10 {
        seq![digit_char(n as int)]
    } else {
        dec_digits(n / 10).push(digit_char((n % 10) as int))
    }
}

/// Decimal representation of `n`, left-padded with `'0'` to at least `width` characters
/// (as `format!("{:0width$}", n)`).
pub open spec fn dec_padded(n: nat, width: nat) -> Seq<char> {
    let d = dec_digits(n);
    if d.len() >= width {
        d
    } else {
        Seq::new((width - d.len()) as nat, |_i: int| '0') + d
    }
}

/// Ten to the power `k`.
pub open spec fn pow10(k: nat) -> nat
    decreases k,
{
    if k == 0 { 1 } else { 10 * pow10((k - 1) as nat) }
}

proof fn lemma_dec_digits_len(n: nat, k: nat)
    requires
        1 <= k,
        n < pow10(k),
    ensures
        1 <= dec_digits(n).len() <= k,
    decreases k,
{
    if n >= 10 {
        assert(k >= 2) by {
            if k == 1 {
                assert(pow10(1) == 10) by {
                    reveal_with_fuel(pow10, 2);
                }
            }
        }
        lemma_dec_digits_len(n / 10, (k - 1) as nat);
    }
}

proof fn lemma_u64_digits(n: u64)
    ensures
        1 <= dec_digits(n as nat).len() <= 20,
{
    assert(pow10(20) == 100000000000000000000) by {
        reveal_with_fuel(pow10, 21);
    }
    lemma_dec_digits_len(n as nat, 20);
}

fn dec_len(n: u64) -> (l: usize)
    ensures
        l == dec_digits(n as nat).len(),
    decreases n,
{
    if n < 10 {
        1
    } else {
        let k = dec_len(n / 10);
        proof {
            lemma_u64_digits(n / 10);
        }
        k + 1
    }
}

fn push_digits(out: &mut Vec<char>, n: u64)
    ensures
        final(out)@ == old(out)@ + dec_digits(n as nat),
    decreases n,
{
    if n >= 10 {
        push_digits(out, n / 10);
    }
    let d = (n % 10) as u8;
    out.push((48u8 + d) as char);
    proof {
        assert(((48u8 + d) as char) == digit_char((n % 10) as int));
    }
}

/// Appends `n` in decimal, zero-padded to `width` characters.
pub fn push_dec(out: &mut Vec<char>, n: u64, width: usize)
    ensures
        final(out)@ == old(out)@ + dec_padded(n as nat, width as nat),
{
    let l = dec_len(n);
    let ghost start = out@;
    let mut k: usize = l;
    while k < width
        invariant
            l <= k,
            k <= width || k == l,
            l == dec_digits(n as nat).len(),
            out@ == start + Seq::new((k - l) as nat, |_i: int| '0'),
        decreases width - k,
    {
        out.push('0');
        proof {
            assert(start + Seq::new((k + 1 - l) as nat, |_i: int| '0') =~= start + Seq::new((k - l) as nat, |_i: int| '0').push('0'));
        }
        k = k + 1;
    }
    let ghost mid = out@;
    push_digits(out, n);
    proof {
        if l >= width {
            assert(Seq::new((k - l) as nat, |_i: int| '0') =~= Seq::<char>::empty());
            assert(mid =~= start);
        } else {
            assert(start + Seq::new((width - l) as nat, |_i: int| '0') + dec_digits(n as nat)
                =~= start + (Seq::new((width - l) as nat, |_i: int| '0') + dec_digits(n as nat)));
        }
    }
}

/// Distinct numbers have distinct decimal representations.
pub proof fn lemma_dec_digits_injective(a: nat, b: nat)
    ensures
        a != b ==> dec_digits(a) != dec_digits(b),
    decreases a + b,
{
    if a != b && dec_digits(a) == dec_digits(b) {
        if a < 10 && b < 10 {
            assert(dec_digits(a)[0] == digit_char(a as int));
        } else if a < 10 {
            lemma_dec_digits_nonempty(b / 10);
            assert(dec_digits(b).len() >= 2);
        } else if b < 10 {
            lemma_dec_digits_nonempty(a / 10);
            assert(dec_digits(a).len() >= 2);
        } else {
            let la = dec_digits(a).len();
            assert(dec_digits(a)[la - 1] == digit_char((a % 10) as int));
            assert(dec_digits(b)[la - 1] == digit_char((b % 10) as int));
            assert(dec_digits(a).drop_last() =~= dec_digits(a / 10));
            assert(dec_digits(b).drop_last() =~= dec_digits(b / 10));
            lemma_dec_digits_injective(a / 10, b / 10);
            assert(a % 10 == b % 10);
        }
    }
}

/// Every number has at least one digit.
pub proof fn lemma_dec_digits_nonempty(n: nat)
    ensures
        dec_digits(n).len() >= 1,
    decreases n,
{
    if n >= 10 {
        lemma_dec_digits_nonempty(n / 10);
    }
}

} // verus!
