//! Character-level building blocks shared by the parsers: whitespace,
//! trimming, ASCII case, splitting, and conversions between `&str`,
//! `String` and vectors of `char`.
use vstd::prelude::*;

verus! {

// ---------------------------------------------------------------------------
// Character classes
// ---------------------------------------------------------------------------

/// The characters with the Unicode `White_Space` property.
pub open spec fn is_ws(c: char) -> bool {
    ||| ('\u{9}' <= c && c <= '\u{d}')
    ||| c == ' '
    ||| c == '\u{85}'
    ||| c == '\u{a0}'
    ||| c == '\u{1680}'
    ||| ('\u{2000}' <= c && c <= '\u{200a}')
    ||| c == '\u{2028}'
    ||| c == '\u{2029}'
    ||| c == '\u{202f}'
    ||| c == '\u{205f}'
    ||| c == '\u{3000}'
}

pub open spec fn is_digit(c: char) -> bool {
    '0' <= c && c <= '9'
}

pub open spec fn is_upper(c: char) -> bool {
    'A' <= c && c <= 'Z'
}

pub open spec fn is_lower(c: char) -> bool {
    'a' <= c && c <= 'z'
}

pub open spec fn is_alpha(c: char) -> bool {
    is_upper(c) || is_lower(c)
}

pub open spec fn is_alnum(c: char) -> bool {
    is_alpha(c) || is_digit(c)
}

/// ASCII upper case of one character; everything else is left alone.
pub open spec fn upper_char(c: char) -> char {
    if is_lower(c) {
        ((c as u32) - 32) as char
    } else {
        c
    }
}

/// ASCII lower case of one character; everything else is left alone.
pub open spec fn lower_char(c: char) -> char {
    if is_upper(c) {
        ((c as u32) + 32) as char
    } else {
        c
    }
}

pub open spec fn upper_seq(s: Seq<char>) -> Seq<char> {
    s.map_values(|c: char| upper_char(c))
}

pub open spec fn lower_seq(s: Seq<char>) -> Seq<char> {
    s.map_values(|c: char| lower_char(c))
}

pub open spec fn all_ascii(s: Seq<char>) -> bool {
    forall|i: int| 0 <= i < s.len() ==> (#[trigger] s[i] as u32) < 128
}

/// Whether the character has the Unicode `White_Space` property, as
/// `char::is_whitespace` answers.
pub fn char_is_whitespace(c: char) -> (r: bool)
    ensures
        r == is_ws(c),
{
    ('\u{9}' <= c && c <= '\u{d}') || c == ' ' || c == '\u{85}' || c == '\u{a0}' || c
        == '\u{1680}' || ('\u{2000}' <= c && c <= '\u{200a}') || c == '\u{2028}' || c
        == '\u{2029}' || c == '\u{202f}' || c == '\u{205f}' || c == '\u{3000}'
}

pub fn is_digit_char(c: char) -> (r: bool)
    ensures
        r == is_digit(c),
{
    c >= '0' && c <= '9'
}

pub fn is_alpha_char(c: char) -> (r: bool)
    ensures
        r == is_alpha(c),
{
    (c >= 'A' && c <= 'Z') || (c >= 'a' && c <= 'z')
}

pub fn to_upper_char(c: char) -> (r: char)
    ensures
        r == upper_char(c),
{
    if c >= 'a' && c <= 'z' {
        let b: u8 = c as u8;
        let u: u8 = b - 32;
        u as char
    } else {
        c
    }
}

pub fn to_lower_char(c: char) -> (r: char)
    ensures
        r == lower_char(c),
{
    if c >= 'A' && c <= 'Z' {
        let b: u8 = c as u8;
        let u: u8 = b + 32;
        u as char
    } else {
        c
    }
}

// ---------------------------------------------------------------------------
// Unicode lower case (std)
// ---------------------------------------------------------------------------

/// What `str::to_lowercase` returns for a string, by its characters.
pub uninterp spec fn str_lowercase(s: Seq<char>) -> Seq<char>;

/// `str::to_lowercase` from std.
///
/// Trusted: the result is named by `str_lowercase` (Unicode case mapping is
/// not written out here), and on a string of ASCII characters it is the ASCII
/// lower case of each character, as std documents for `to_ascii_lowercase`
/// ("to lowercase ASCII characters in addition to non-ASCII characters, use
/// `str::to_lowercase`").
#[verifier::external_body]
pub(crate) fn lowercase(s: &str) -> (r: String)
    ensures
        r@ == str_lowercase(s@),
        all_ascii(s@) ==> r@ == lower_seq(s@),
{
    s.to_lowercase()
}

// ---------------------------------------------------------------------------
// Conversions
// ---------------------------------------------------------------------------

/// `String::push` from std: appends one character.
#[verifier::external_body]
pub(crate) fn push_char(s: &mut String, c: char)
    ensures
        final(s)@ == old(s)@.push(c),
{
    s.push(c)
}

/// The string with its ASCII letters in upper case, as
/// `str::to_ascii_uppercase` gives it.
pub fn ascii_upper(s: &str) -> (r: String)
    ensures
        r@ == upper_seq(s@),
{
    let v = chars_of(s);
    let mut r = String::new();
    let mut i: usize = 0;
    while i < v.len()
        invariant
            0 <= i <= v.len(),
            v@ == s@,
            r@ == upper_seq(v@.subrange(0, i as int)),
        decreases v.len() - i,
    {
        push_char(&mut r, to_upper_char(v[i]));
        i = i + 1;
        assert(r@ =~= upper_seq(v@.subrange(0, i as int)));
    }
    assert(v@.subrange(0, v.len() as int) =~= v@);
    r
}

/// The characters of a string, in order.
pub fn chars_of(s: &str) -> (v: Vec<char>)
    ensures
        v@ == s@,
{
    let mut v: Vec<char> = Vec::new();
    for c in it: s.chars()
        invariant
            v@ == it.seq().take(it.index() as int),
            it.seq() == s@,
    {
        v.push(c);
    }
    v
}

/// A `String` holding the characters `v[lo..hi]`.
pub fn string_of(v: &Vec<char>, lo: usize, hi: usize) -> (r: String)
    requires
        lo <= hi <= v.len(),
    ensures
        r@ == v@.subrange(lo as int, hi as int),
{
    let mut r = String::new();
    let mut i = lo;
    while i < hi
        invariant
            lo <= i <= hi <= v.len(),
            r@ == v@.subrange(lo as int, i as int),
        decreases hi - i,
    {
        push_char(&mut r, v[i]);
        i = i + 1;
        assert(r@ =~= v@.subrange(lo as int, i as int));
    }
    r
}

/// A `String` holding all the characters of `v`.
pub fn string_of_all(v: &Vec<char>) -> (r: String)
    ensures
        r@ == v@,
{
    let r = string_of(v, 0, v.len());
    assert(v@.subrange(0, v@.len() as int) =~= v@);
    r
}

/// `s` followed by the characters of `t`.
pub fn append_str(s: &mut String, t: &str)
    ensures
        final(s)@ == old(s)@ + t@,
{
    s.append(t);
}

/// Same characters, compared one by one.
pub fn same_chars(a: &Vec<char>, b: &Vec<char>) -> (r: bool)
    ensures
        r == (a@ == b@),
{
    if a.len() != b.len() {
        return false;
    }
    let mut i: usize = 0;
    while i < a.len()
        invariant
            a.len() == b.len(),
            0 <= i <= a.len(),
            forall|k: int| 0 <= k < i ==> a@[k] == b@[k],
        decreases a.len() - i,
    {
        if a[i] != b[i] {
            return false;
        }
        i = i + 1;
    }
    assert(a@ =~= b@);
    true
}

// ---------------------------------------------------------------------------
// Trimming
// ---------------------------------------------------------------------------

pub open spec fn trim_start(s: Seq<char>) -> Seq<char>
    decreases s.len(),
{
    if s.len() > 0 && is_ws(s[0]) {
        trim_start(s.drop_first())
    } else {
        s
    }
}

pub open spec fn trim_end(s: Seq<char>) -> Seq<char>
    decreases s.len(),
{
    if s.len() > 0 && is_ws(s.last()) {
        trim_end(s.drop_last())
    } else {
        s
    }
}

/// What `str::trim` leaves: no `White_Space` at either end.
pub open spec fn trim(s: Seq<char>) -> Seq<char> {
    trim_end(trim_start(s))
}

/// A string that trims to nothing.
pub open spec fn is_blank(s: Seq<char>) -> bool {
    trim(s).len() == 0
}

pub proof fn lemma_trim_start_skip(s: Seq<char>, i: int)
    requires
        0 <= i <= s.len(),
        forall|k: int| 0 <= k < i ==> is_ws(#[trigger] s[k]),
    ensures
        trim_start(s) == trim_start(s.subrange(i, s.len() as int)),
    decreases i,
{
    if i > 0 {
        assert(is_ws(s[0]));
        let t = s.drop_first();
        assert forall|k: int| 0 <= k < i - 1 implies is_ws(#[trigger] t[k]) by {
            assert(t[k] == s[k + 1]);
        }
        lemma_trim_start_skip(t, i - 1);
        assert(t.subrange(i - 1, t.len() as int) =~= s.subrange(i, s.len() as int));
    } else {
        assert(s.subrange(0, s.len() as int) =~= s);
    }
}

pub proof fn lemma_trim_end_cut(s: Seq<char>, j: int)
    requires
        0 <= j <= s.len(),
        forall|k: int| j <= k < s.len() ==> is_ws(#[trigger] s[k]),
    ensures
        trim_end(s) == trim_end(s.subrange(0, j)),
    decreases s.len() - j,
{
    if j < s.len() {
        assert(is_ws(s.last()));
        let t = s.drop_last();
        assert forall|k: int| j <= k < t.len() implies is_ws(#[trigger] t[k]) by {
            assert(t[k] == s[k]);
        }
        lemma_trim_end_cut(t, j);
        assert(t.subrange(0, j) =~= s.subrange(0, j));
    } else {
        assert(s.subrange(0, j) =~= s);
    }
}

pub proof fn lemma_trim_start_len(s: Seq<char>)
    ensures
        trim_start(s).len() <= s.len(),
        trim_start(s).len() > 0 ==> !is_ws(trim_start(s)[0]),
        s == s.subrange(0, s.len() - trim_start(s).len()) + trim_start(s),
    decreases s.len(),
{
    if s.len() > 0 && is_ws(s[0]) {
        lemma_trim_start_len(s.drop_first());
        let t = trim_start(s.drop_first());
        let d = s.drop_first();
        assert(d =~= d.subrange(0, d.len() - t.len()) + t);
        assert(s =~= s.subrange(0, s.len() - t.len()) + t) by {
            assert(s =~= seq![s[0]] + d);
            assert(s.subrange(0, s.len() - t.len()) =~= seq![s[0]] + d.subrange(
                0,
                d.len() - t.len(),
            ));
        }
    } else {
        assert(s.subrange(0, 0) + s =~= s);
    }
}

pub proof fn lemma_trim_end_len(s: Seq<char>)
    ensures
        trim_end(s).len() <= s.len(),
        trim_end(s).len() > 0 ==> !is_ws(trim_end(s).last()),
        trim_end(s) == s.subrange(0, trim_end(s).len() as int),
    decreases s.len(),
{
    if s.len() > 0 && is_ws(s.last()) {
        lemma_trim_end_len(s.drop_last());
        let t = trim_end(s.drop_last());
        assert(s.drop_last().subrange(0, t.len() as int) =~= s.subrange(0, t.len() as int));
    } else {
        assert(s.subrange(0, s.len() as int) =~= s);
    }
}

/// A trimmed string is a piece of the string with no `White_Space` at
/// either end.
pub proof fn lemma_trim_shape(s: Seq<char>)
    ensures
        trim(s).len() <= s.len(),
        trim(s).len() > 0 ==> !is_ws(trim(s)[0]) && !is_ws(trim(s).last()),
{
    lemma_trim_start_len(s);
    lemma_trim_end_len(trim_start(s));
    let t = trim_start(s);
    if trim(s).len() > 0 {
        assert(trim(s)[0] == t[0]);
    }
}

/// Trimming something that has no `White_Space` at either end changes nothing.
pub proof fn lemma_trim_noop(s: Seq<char>)
    requires
        s.len() > 0 ==> !is_ws(s[0]) && !is_ws(s.last()),
    ensures
        trim(s) == s,
{
}

/// Trimming twice is trimming once.
pub proof fn lemma_trim_idempotent(s: Seq<char>)
    ensures
        trim(trim(s)) == trim(s),
{
    lemma_trim_shape(s);
    lemma_trim_noop(trim(s));
}

/// Filtering a sequence whose items all pass keeps it whole.
pub proof fn lemma_filter_all<A>(s: Seq<A>, p: spec_fn(A) -> bool)
    requires
        forall|k: int| 0 <= k < s.len() ==> p(#[trigger] s[k]),
    ensures
        s.filter(p) == s,
    decreases s.len(),
{
    reveal_with_fuel(Seq::filter, 1);
    if s.len() > 0 {
        let d = s.drop_last();
        assert forall|k: int| 0 <= k < d.len() implies p(#[trigger] d[k]) by {
            assert(d[k] == s[k]);
        }
        lemma_filter_all(d, p);
        assert(p(s[s.len() - 1]));
        assert(d.push(s.last()) =~= s);
    }
}

/// A trimmed string is a piece of the string it came from: the characters from some
/// position on, as many as it has.
pub proof fn lemma_trim_piece(s: Seq<char>)
    ensures
        exists|a: int|
            0 <= a && a + trim(s).len() <= s.len() && #[trigger] s.subrange(a, a + trim(s).len())
                == trim(s),
{
    lemma_trim_start_len(s);
    let t = trim_start(s);
    lemma_trim_end_len(t);
    let a = s.len() - t.len();
    let n = trim(s).len();
    assert(s.subrange(a, a + n) =~= t.subrange(0, n as int));
}

/// Trimming keeps a string of ASCII characters ASCII.
pub proof fn lemma_trim_ascii(s: Seq<char>)
    requires
        all_ascii(s),
    ensures
        all_ascii(trim(s)),
{
    lemma_trim_piece(s);
    let a = choose|a: int|
        0 <= a && a + trim(s).len() <= s.len() && #[trigger] s.subrange(a, a + trim(s).len())
            == trim(s);
    assert forall|i: int| 0 <= i < trim(s).len() implies (#[trigger] trim(s)[i] as u32) < 128 by {
        assert(trim(s)[i] == s[a + i]);
    }
}

/// The trimmed characters of `v`.
pub fn trim_chars(v: &Vec<char>) -> (r: Vec<char>)
    ensures
        r@ == trim(v@),
{
    let n = v.len();
    let mut a: usize = 0;
    while a < n && char_is_whitespace(v[a])
        invariant
            0 <= a <= n == v.len(),
            forall|k: int| 0 <= k < a ==> is_ws(#[trigger] v@[k]),
        decreases n - a,
    {
        a = a + 1;
    }
    proof {
        lemma_trim_start_skip(v@, a as int);
    }
    let ghost rest = v@.subrange(a as int, n as int);
    assert(trim_start(rest) == rest);
    let mut b: usize = n;
    while b > a && char_is_whitespace(v[b - 1])
        invariant
            a <= b <= n == v.len(),
            forall|k: int| b <= k < n ==> is_ws(#[trigger] v@[k]),
        decreases b,
    {
        b = b - 1;
    }
    proof {
        assert forall|k: int| (b - a) <= k < rest.len() implies is_ws(#[trigger] rest[k]) by {
            assert(rest[k] == v@[k + a]);
        }
        lemma_trim_end_cut(rest, (b - a) as int);
        assert(rest.subrange(0, (b - a) as int) =~= v@.subrange(a as int, b as int));
        let cut = v@.subrange(a as int, b as int);
        if cut.len() > 0 {
            assert(cut.last() == v@[b - 1]);
        }
    }
    let mut r: Vec<char> = Vec::new();
    let mut i = a;
    while i < b
        invariant
            a <= i <= b <= n == v.len(),
            r@ == v@.subrange(a as int, i as int),
        decreases b - i,
    {
        r.push(v[i]);
        i = i + 1;
        assert(r@ =~= v@.subrange(a as int, i as int));
    }
    r
}

/// The trimmed string.
pub fn trim_str(s: &str) -> (r: String)
    ensures
        r@ == trim(s@),
{
    let v = chars_of(s);
    let t = trim_chars(&v);
    string_of_all(&t)
}

// ---------------------------------------------------------------------------
// Prefixes, membership, search
// ---------------------------------------------------------------------------

pub open spec fn starts_with(s: Seq<char>, p: Seq<char>) -> bool {
    p.len() <= s.len() && s.subrange(0, p.len() as int) == p
}

pub fn has_prefix(v: &Vec<char>, p: &str) -> (r: bool)
    ensures
        r == starts_with(v@, p@),
{
    let pv = chars_of(p);
    if pv.len() > v.len() {
        return false;
    }
    let mut i: usize = 0;
    while i < pv.len()
        invariant
            pv@ == p@,
            pv.len() <= v.len(),
            0 <= i <= pv.len(),
            forall|k: int| 0 <= k < i ==> v@[k] == pv@[k],
        decreases pv.len() - i,
    {
        if v[i] != pv[i] {
            assert(v@.subrange(0, pv.len() as int)[i as int] != p@[i as int]);
            return false;
        }
        i = i + 1;
    }
    assert(v@.subrange(0, pv.len() as int) =~= p@);
    true
}

pub open spec fn contains_char(s: Seq<char>, c: char) -> bool {
    exists|i: int| 0 <= i < s.len() && s[i] == c
}

pub fn has_char(v: &Vec<char>, c: char) -> (r: bool)
    ensures
        r == contains_char(v@, c),
{
    let mut i: usize = 0;
    while i < v.len()
        invariant
            0 <= i <= v.len(),
            forall|k: int| 0 <= k < i ==> v@[k] != c,
        decreases v.len() - i,
    {
        if v[i] == c {
            return true;
        }
        i = i + 1;
    }
    false
}

pub open spec fn has_ws(s: Seq<char>) -> bool {
    exists|i: int| 0 <= i < s.len() && is_ws(s[i])
}

pub fn has_whitespace(v: &Vec<char>) -> (r: bool)
    ensures
        r == has_ws(v@),
{
    let mut i: usize = 0;
    while i < v.len()
        invariant
            0 <= i <= v.len(),
            forall|k: int| 0 <= k < i ==> !is_ws(v@[k]),
        decreases v.len() - i,
    {
        if char_is_whitespace(v[i]) {
            return true;
        }
        i = i + 1;
    }
    false
}

// ---------------------------------------------------------------------------
// Splitting
// ---------------------------------------------------------------------------

/// The characters of each vector in a sequence of them.
pub open spec fn char_views(v: Seq<Vec<char>>) -> Seq<Seq<char>> {
    v.map_values(|x: Vec<char>| x@)
}

/// The pieces that `str::split_whitespace` yields from position `i` on,
/// when the piece being read so far is `cur`.
pub open spec fn ws_split_from(s: Seq<char>, i: int, cur: Seq<char>) -> Seq<Seq<char>>
    decreases s.len() - i,
{
    if i >= s.len() || i < 0 {
        if cur.len() > 0 {
            seq![cur]
        } else {
            seq![]
        }
    } else if is_ws(s[i]) {
        (if cur.len() > 0 {
            seq![cur]
        } else {
            seq![]
        }) + ws_split_from(s, i + 1, seq![])
    } else {
        ws_split_from(s, i + 1, cur.push(s[i]))
    }
}

/// The maximal runs of non-`White_Space` characters, in order.
pub open spec fn ws_split(s: Seq<char>) -> Seq<Seq<char>> {
    ws_split_from(s, 0, seq![])
}

/// The pieces of `s` between occurrences of `sep`, from position `i` on,
/// when the piece being read so far is `cur`; like `str::split`, there is
/// always at least one piece, and pieces may be empty.
pub open spec fn char_split_from(s: Seq<char>, sep: char, i: int, cur: Seq<char>) -> Seq<Seq<char>>
    decreases s.len() - i,
{
    if i >= s.len() || i < 0 {
        seq![cur]
    } else if s[i] == sep {
        seq![cur] + char_split_from(s, sep, i + 1, seq![])
    } else {
        char_split_from(s, sep, i + 1, cur.push(s[i]))
    }
}

pub open spec fn char_split(s: Seq<char>, sep: char) -> Seq<Seq<char>> {
    char_split_from(s, sep, 0, seq![])
}

/// The words of `v`, as `str::split_whitespace` gives them.
pub fn split_ws(v: &Vec<char>) -> (r: Vec<Vec<char>>)
    ensures
        char_views(r@) == ws_split(v@),
{
    let mut out: Vec<Vec<char>> = Vec::new();
    let mut cur: Vec<char> = Vec::new();
    let mut i: usize = 0;
    while i < v.len()
        invariant
            0 <= i <= v.len(),
            char_views(out@) + ws_split_from(v@, i as int, cur@) == ws_split(v@),
        decreases v.len() - i,
    {
        let c = v[i];
        if char_is_whitespace(c) {
            if cur.len() > 0 {
                let ghost before = char_views(out@);
                let piece = cur;
                cur = Vec::new();
                out.push(piece);
                assert(char_views(out@) =~= before + seq![piece@]);
                assert(before + seq![piece@] + ws_split_from(v@, i + 1, seq![]) =~= before + (
                seq![piece@] + ws_split_from(v@, i + 1, seq![])));
            } else {
                assert(seq![] + ws_split_from(v@, i + 1, seq![]) =~= ws_split_from(
                    v@,
                    i + 1,
                    seq![],
                ));
            }
            assert(cur@ =~= seq![]);
        } else {
            cur.push(c);
        }
        i = i + 1;
    }
    if cur.len() > 0 {
        let ghost before = char_views(out@);
        out.push(cur);
        assert(char_views(out@) =~= before + ws_split_from(v@, i as int, cur@));
    } else {
        assert(char_views(out@) + ws_split_from(v@, i as int, cur@) =~= char_views(out@));
    }
    out
}

/// The pieces of `v` between occurrences of `sep`, as `str::split` gives them.
pub fn split_char(v: &Vec<char>, sep: char) -> (r: Vec<Vec<char>>)
    ensures
        char_views(r@) == char_split(v@, sep),
{
    let mut out: Vec<Vec<char>> = Vec::new();
    let mut cur: Vec<char> = Vec::new();
    let mut i: usize = 0;
    while i < v.len()
        invariant
            0 <= i <= v.len(),
            char_views(out@) + char_split_from(v@, sep, i as int, cur@) == char_split(v@, sep),
        decreases v.len() - i,
    {
        let c = v[i];
        if c == sep {
            let ghost before = char_views(out@);
            let piece = cur;
            cur = Vec::new();
            out.push(piece);
            assert(char_views(out@) =~= before + seq![piece@]);
            assert(before + seq![piece@] + char_split_from(v@, sep, i + 1, seq![]) =~= before + (
            seq![piece@] + char_split_from(v@, sep, i + 1, seq![])));
            assert(cur@ =~= seq![]);
        } else {
            cur.push(c);
        }
        i = i + 1;
    }
    let ghost before = char_views(out@);
    out.push(cur);
    assert(char_views(out@) =~= before + char_split_from(v@, sep, i as int, cur@));
    out
}

// ---------------------------------------------------------------------------
// Decimal numbers
// ---------------------------------------------------------------------------

pub open spec fn digit_char(d: nat) -> char {
    ((d + 48) as u32) as char
}

/// The decimal digits of `n`, with no leading zeros ("0" for zero).
pub open spec fn decimal(n: nat) -> Seq<char>
    decreases n,
{
    if n < 10 {
        seq![digit_char(n)]
    } else {
        decimal(n / 10).push(digit_char(n % 10))
    }
}

/// The decimal digits of `n`.
pub fn decimal_string(n: u64) -> (r: String)
    ensures
        r@ == decimal(n as nat),
{
    // Digits are produced from the least significant one and then reversed.
    let mut rev: Vec<char> = Vec::new();
    let mut m: u64 = n;
    while m >= 10
        invariant
            m <= n,
            decimal(n as nat) == decimal(m as nat) + rev@.reverse(),
        decreases m,
    {
        let d: u64 = m % 10;
        let c: char = ((d as u8) + 48) as char;
        assert(c == digit_char(d as nat));
        let ghost before = rev@;
        rev.push(c);
        assert(decimal(m as nat) == decimal((m / 10) as nat).push(c));
        assert(rev@.reverse() =~= seq![c] + before.reverse());
        assert(decimal((m / 10) as nat).push(c) + before.reverse() =~= decimal((m / 10) as nat) + (
        seq![c] + before.reverse()));
        m = m / 10;
    }
    let c: char = ((m as u8) + 48) as char;
    assert(c == digit_char(m as nat));
    let ghost before = rev@;
    rev.push(c);
    assert(rev@.reverse() =~= seq![c] + before.reverse());
    assert(decimal(m as nat) =~= seq![c]);
    let mut r = String::new();
    let mut i = rev.len();
    while i > 0
        invariant
            i <= rev.len(),
            decimal(n as nat) == rev@.reverse(),
            r@ == rev@.reverse().subrange(0, (rev.len() - i) as int),
        decreases i,
    {
        i = i - 1;
        push_char(&mut r, rev[i]);
        assert(r@ =~= rev@.reverse().subrange(0, (rev.len() - i) as int));
    }
    assert(rev@.reverse().subrange(0, rev.len() as int) =~= rev@.reverse());
    r
}

} // verus!
