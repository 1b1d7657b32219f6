//! Turns hand-written notation into pieces the interface can paint.
//!
//! Each hit is read left to right and cut into pieces: labels ("g.", "j.",
//! "jc", "IAD"), directions, held directions ("[6]"), buttons and loose
//! text. That free form is what lets it swallow `g.236LLL`, `j.[6]HH` or
//! `5AA` without foreseeing them one by one.
//!
//! What the user writes rules: nothing is corrected here, and what is not
//! recognised is kept as text, never dropped.
use vstd::prelude::*;
use crate::text::{
    char_split, char_split_from, ws_split_from, char_views, chars_of, is_alnum, is_alpha, is_digit, is_ws, lower_seq,
    split_char, split_ws, starts_with, string_of, string_of_all, to_lower_char, to_upper_char,
    upper_seq, ws_split, is_alpha_char, is_digit_char, lower_char, upper_char,
};

verus! {

// ---------------------------------------------------------------------------
// Buttons
// ---------------------------------------------------------------------------

/// Colours of each Tokon button.
#[derive(Debug, Clone, Copy, PartialEq, Eq)]
pub struct ButtonStyle {
    pub code: &'static str,
    pub bg: &'static str,
    pub fg: &'static str,
}

/// A button style by its characters: code, background, foreground.
pub type StyleView = (Seq<char>, Seq<char>, Seq<char>);

impl View for ButtonStyle {
    type V = StyleView;

    open spec fn view(&self) -> StyleView {
        (self.code@, self.bg@, self.fg@)
    }
}

/// The button table, in order: L, M, H, U, A, QS, QA.
pub open spec fn style_row(k: int) -> StyleView {
    if k == 0 {
        (seq!['L'], "#F2C94C"@, "#241D00"@)
    } else if k == 1 {
        (seq!['M'], "#F2782F"@, "#2A1200"@)
    } else if k == 2 {
        (seq!['H'], "#E85D5D"@, "#2A0808"@)
    } else if k == 3 {
        (seq!['U'], "#8C7CF7"@, "#170F35"@)
    } else if k == 4 {
        (seq!['A'], "#4FBDE8"@, "#00232E"@)
    } else if k == 5 {
        (seq!['Q', 'S'], "#B5E84C"@, "#182400"@)
    } else {
        (seq!['Q', 'A'], "#4FE8C0"@, "#00251C"@)
    }
}

pub open spec fn button_count() -> int {
    7
}

/// The style whose code is exactly `code`, if any.
pub open spec fn style_of(code: Seq<char>) -> Option<StyleView> {
    if code == style_row(0).0 {
        Some(style_row(0))
    } else if code == style_row(1).0 {
        Some(style_row(1))
    } else if code == style_row(2).0 {
        Some(style_row(2))
    } else if code == style_row(3).0 {
        Some(style_row(3))
    } else if code == style_row(4).0 {
        Some(style_row(4))
    } else if code == style_row(5).0 {
        Some(style_row(5))
    } else if code == style_row(6).0 {
        Some(style_row(6))
    } else {
        None
    }
}

pub open spec fn opt_style(o: Option<ButtonStyle>) -> Option<StyleView> {
    match o {
        Some(b) => Some(b@),
        None => None,
    }
}

fn style_at(k: usize) -> (b: ButtonStyle)
    requires
        k < 7,
    ensures
        b@ == style_row(k as int),
{
    proof {
        reveal_strlit("L");
        reveal_strlit("M");
        reveal_strlit("H");
        reveal_strlit("U");
        reveal_strlit("A");
        reveal_strlit("QS");
        reveal_strlit("QA");
    }
    if k == 0 {
        ButtonStyle { code: "L", bg: "#F2C94C", fg: "#241D00" }
    } else if k == 1 {
        ButtonStyle { code: "M", bg: "#F2782F", fg: "#2A1200" }
    } else if k == 2 {
        ButtonStyle { code: "H", bg: "#E85D5D", fg: "#2A0808" }
    } else if k == 3 {
        ButtonStyle { code: "U", bg: "#8C7CF7", fg: "#170F35" }
    } else if k == 4 {
        ButtonStyle { code: "A", bg: "#4FBDE8", fg: "#00232E" }
    } else if k == 5 {
        ButtonStyle { code: "QS", bg: "#B5E84C", fg: "#182400" }
    } else {
        ButtonStyle { code: "QA", bg: "#4FE8C0", fg: "#00251C" }
    }
}

/// All the buttons, in table order.
pub fn buttons() -> (v: Vec<ButtonStyle>)
    ensures
        v@.len() == button_count(),
        forall|k: int| 0 <= k < button_count() ==> #[trigger] v@[k]@ == style_row(k),
{
    let mut v: Vec<ButtonStyle> = Vec::new();
    let mut k: usize = 0;
    while k < 7
        invariant
            k <= 7,
            v@.len() == k,
            forall|j: int| 0 <= j < k ==> #[trigger] v@[j]@ == style_row(j),
        decreases 7 - k,
    {
        v.push(style_at(k));
        k = k + 1;
    }
    v
}

/// The style of the button whose code is in `v[lo..lo + len]` once upper-cased
/// (ASCII), if there is one.
pub(crate) fn style_upper(v: &Vec<char>, lo: usize, len: usize) -> (r: Option<ButtonStyle>)
    requires
        lo + len <= v.len(),
        len == 1 || len == 2,
    ensures
        opt_style(r) == style_of(upper_seq(v@.subrange(lo as int, lo + len))),
{
    let ghost code = upper_seq(v@.subrange(lo as int, lo + len));
    let a = to_upper_char(v[lo]);
    assert(code[0] == a);
    if len == 1 {
        assert(code.len() == 1);
        let k: usize = if a == 'L' {
            0
        } else if a == 'M' {
            1
        } else if a == 'H' {
            2
        } else if a == 'U' {
            3
        } else if a == 'A' {
            4
        } else {
            7
        };
        if k == 7 {
            assert(code != style_row(0).0);
            assert(code != style_row(5).0);
            assert(code != style_row(6).0);
            None
        } else {
            assert(code =~= style_row(k as int).0);
            Some(style_at(k))
        }
    } else {
        let b = to_upper_char(v[lo + 1]);
        assert(code[1] == b);
        assert(code.len() == 2);
        if a == 'Q' && b == 'S' {
            assert(code =~= style_row(5).0);
            Some(style_at(5))
        } else if a == 'Q' && b == 'A' {
            assert(code =~= style_row(6).0);
            Some(style_at(6))
        } else {
            assert(code != style_row(5).0);
            assert(code != style_row(6).0);
            None
        }
    }
}

/// Button codes are one or two upper-case letters.
pub proof fn lemma_codes_upper(code: Seq<char>)
    ensures
        style_of(code) is Some ==> 1 <= code.len() <= 2 && forall|k: int|
            0 <= k < code.len() ==> crate::text::is_upper(#[trigger] code[k]),
{
}

/// The style of a button by its exact code ("L", "QS"...).
pub fn button_style(code: &str) -> (r: Option<ButtonStyle>)
    ensures
        opt_style(r) == style_of(code@),
{
    proof {
        lemma_codes_upper(code@);
    }
    let v = chars_of(code);
    if v.len() == 0 || v.len() > 2 {
        return None;
    }
    let mut k: usize = 0;
    while k < v.len()
        invariant
            v@ == code@,
            0 <= k <= v.len(),
            forall|j: int| 0 <= j < k ==> crate::text::is_upper(#[trigger] v@[j]),
        decreases v.len() - k,
    {
        if !(v[k] >= 'A' && v[k] <= 'Z') {
            return None;
        }
        k = k + 1;
    }
    assert(upper_seq(v@.subrange(0, v.len() as int)) =~= v@);
    style_upper(&v, 0, v.len())
}

/// The five buttons explained in the app's legend, with their names.
pub open spec fn legend_row(k: int) -> (Seq<char>, Seq<char>) {
    if k == 0 {
        ("L"@, "Ligero"@)
    } else if k == 1 {
        ("M"@, "Medio"@)
    } else if k == 2 {
        ("H"@, "Pesado"@)
    } else if k == 3 {
        ("U"@, "Unica"@)
    } else {
        ("A"@, "Assemble"@)
    }
}

/// The buttons of the legend, with their names.
pub fn legend() -> (v: Vec<(&'static str, &'static str)>)
    ensures
        v@.len() == 5,
        forall|k: int| 0 <= k < 5 ==> (#[trigger] v@[k]).0@ == legend_row(k).0 && v@[k].1@ == legend_row(k).1,
{
    let mut v: Vec<(&'static str, &'static str)> = Vec::new();
    v.push(("L", "Ligero"));
    v.push(("M", "Medio"));
    v.push(("H", "Pesado"));
    v.push(("U", "Unica"));
    v.push(("A", "Assemble"));
    v
}

/// Each code of the table finds its own row.
pub proof fn lemma_style_of_row(k: int)
    requires
        0 <= k < 7,
    ensures
        style_of(style_row(k).0) == Some(style_row(k)),
{
    let c = style_row(k).0;
    assert forall|j: int| 0 <= j < k implies style_row(j).0 != c by {
        if style_row(j).0 == c {
            assert(style_row(j).0[0] == c[0]);
            if c.len() == 2 {
                assert(style_row(j).0[1] == c[1]);
            }
        }
    }
}

/// Every button of the legend has a colour.
pub proof fn lemma_legend_has_style(k: int)
    requires
        0 <= k < 5,
    ensures
        style_of(legend_row(k).0) == Some(style_row(k)),
{
    reveal_strlit("L");
    reveal_strlit("M");
    reveal_strlit("H");
    reveal_strlit("U");
    reveal_strlit("A");
    assert(legend_row(k).0 =~= style_row(k).0);
    lemma_style_of_row(k);
}

// ---------------------------------------------------------------------------
// Directions
// ---------------------------------------------------------------------------

/// A numpad direction, 1 to 9.
pub open spec fn is_dir(c: char) -> bool {
    '1' <= c && c <= '9'
}

/// The arrow of a numpad direction.
pub open spec fn arrow(c: char) -> char {
    if c == '1' {
        '↙'
    } else if c == '2' {
        '↓'
    } else if c == '3' {
        '↘'
    } else if c == '4' {
        '←'
    } else if c == '5' {
        '•'
    } else if c == '6' {
        '→'
    } else if c == '7' {
        '↖'
    } else if c == '8' {
        '↑'
    } else {
        '↗'
    }
}

pub open spec fn dir_run(s: Seq<char>) -> bool {
    forall|k: int| 0 <= k < s.len() ==> is_dir(#[trigger] s[k])
}

pub open spec fn arrows(s: Seq<char>) -> Seq<char> {
    s.map_values(|c: char| arrow(c))
}

fn direction_arrow(c: char) -> (r: Option<char>)
    ensures
        r == (if is_dir(c) {
            Some(arrow(c))
        } else {
            None
        }),
{
    match c {
        '1' => Some('↙'),
        '2' => Some('↓'),
        '3' => Some('↘'),
        '4' => Some('←'),
        '5' => Some('•'),
        '6' => Some('→'),
        '7' => Some('↖'),
        '8' => Some('↑'),
        '9' => Some('↗'),
        _ => None,
    }
}

/// The arrows of `v[lo..hi]`, or `None` when one of them is not 1-9.
pub(crate) fn arrows_of(v: &Vec<char>, lo: usize, hi: usize) -> (r: Option<String>)
    requires
        lo <= hi <= v.len(),
    ensures
        match r {
            Some(s) => dir_run(v@.subrange(lo as int, hi as int)) && s@ == arrows(
                v@.subrange(lo as int, hi as int),
            ),
            None => !dir_run(v@.subrange(lo as int, hi as int)),
        },
{
    let ghost run = v@.subrange(lo as int, hi as int);
    let mut s = String::new();
    let mut i = lo;
    while i < hi
        invariant
            lo <= i <= hi <= v.len(),
            run == v@.subrange(lo as int, hi as int),
            forall|k: int| lo <= k < i ==> is_dir(#[trigger] v@[k]),
            s@ == arrows(v@.subrange(lo as int, i as int)),
        decreases hi - i,
    {
        match direction_arrow(v[i]) {
            Some(a) => {
                crate::text::push_char(&mut s, a);
                i = i + 1;
                assert(s@ =~= arrows(v@.subrange(lo as int, i as int)));
            },
            None => {
                assert(!is_dir(run[i - lo]));
                return None;
            },
        }
    }
    assert forall|k: int| 0 <= k < run.len() implies is_dir(#[trigger] run[k]) by {
        assert(run[k] == v@[k + lo]);
    }
    Some(s)
}

// ---------------------------------------------------------------------------
// Pieces
// ---------------------------------------------------------------------------

/// Each recognisable piece inside a hit.
#[derive(Debug, Clone, PartialEq)]
pub enum Piece {
    /// Modifier or annotation: "g.", "j.", "jc", "IAD", "dl", "(JC)".
    /// Painted small and grey: it is not a key.
    Label(String),
    /// Directions already turned into arrows: "236" -> "↓↘→".
    Directions(String),
    /// A direction held down: "[6]" -> "→".
    Hold(String),
    /// A button, with its colours.
    Button(ButtonStyle),
    /// What was not recognised. Shown untouched.
    Text(String),
}

/// A piece by its characters.
pub enum PieceView {
    Label(Seq<char>),
    Directions(Seq<char>),
    Hold(Seq<char>),
    Button(StyleView),
    Text(Seq<char>),
}

impl View for Piece {
    type V = PieceView;

    open spec fn view(&self) -> PieceView {
        match self {
            Piece::Label(s) => PieceView::Label(s@),
            Piece::Directions(s) => PieceView::Directions(s@),
            Piece::Hold(s) => PieceView::Hold(s@),
            Piece::Button(b) => PieceView::Button(b@),
            Piece::Text(s) => PieceView::Text(s@),
        }
    }
}

pub open spec fn piece_views(v: Seq<Piece>) -> Seq<PieceView> {
    v.map_values(|p: Piece| p@)
}

/// A hit: the sequence of pieces it is made of.
#[derive(Debug, Clone, PartialEq)]
pub struct Atom {
    pub pieces: Vec<Piece>,
}

impl View for Atom {
    type V = Seq<PieceView>;

    open spec fn view(&self) -> Seq<PieceView> {
        piece_views(self.pieces@)
    }
}

pub open spec fn has_button(p: Seq<PieceView>) -> bool {
    exists|k: int| 0 <= k < p.len() && p[k] is Button
}

impl Atom {
    /// Whether the hit carries a button.
    pub fn tiene_boton(&self) -> (r: bool)
        ensures
            r == has_button(self@),
    {
        let mut i: usize = 0;
        while i < self.pieces.len()
            invariant
                0 <= i <= self.pieces.len(),
                forall|k: int| 0 <= k < i ==> !(#[trigger] self@[k] is Button),
            decreases self.pieces.len() - i,
        {
            match &self.pieces[i] {
                Piece::Button(_) => {
                    assert(self@[i as int] is Button);
                    return true;
                },
                _ => {},
            }
            i = i + 1;
        }
        false
    }
}

/// Hits joined by "+" (pressed together).
#[derive(Debug, Clone, PartialEq)]
pub struct Alternative {
    pub atoms: Vec<Atom>,
}

impl View for Alternative {
    type V = Seq<Seq<PieceView>>;

    open spec fn view(&self) -> Seq<Seq<PieceView>> {
        self.atoms@.map_values(|a: Atom| a@)
    }
}

/// Alternatives split by "/" (one or the other).
#[derive(Debug, Clone, PartialEq)]
pub struct Group {
    /// The connector written just before: '>' or '<'. Kept as written rather
    /// than unified, because the user writes them apart on purpose. `None`
    /// when there was only a space.
    pub link: Option<char>,
    pub alternatives: Vec<Alternative>,
}

/// A group by its characters: connector and alternatives.
pub type GroupView = (Option<char>, Seq<Seq<Seq<PieceView>>>);

impl View for Group {
    type V = GroupView;

    open spec fn view(&self) -> GroupView {
        (self.link, self.alternatives@.map_values(|a: Alternative| a@))
    }
}

pub open spec fn group_has_button(g: GroupView) -> bool {
    exists|a: int, b: int|
        0 <= a < g.1.len() && 0 <= b < g.1[a].len() && #[trigger] has_button(g.1[a][b])
}

impl Group {
    /// Whether some hit of some alternative carries a button.
    pub fn tiene_boton(&self) -> (r: bool)
        ensures
            r == group_has_button(self@),
    {
        let ghost g = self@;
        let mut a: usize = 0;
        while a < self.alternatives.len()
            invariant
                g == self@,
                0 <= a <= self.alternatives.len(),
                forall|x: int, y: int|
                    0 <= x < a && 0 <= y < g.1[x].len() ==> !#[trigger] has_button(g.1[x][y]),
            decreases self.alternatives.len() - a,
        {
            let alt = &self.alternatives[a];
            let mut b: usize = 0;
            while b < alt.atoms.len()
                invariant
                    g == self@,
                    0 <= a < self.alternatives.len(),
                    *alt == self.alternatives@[a as int],
                    0 <= b <= alt.atoms.len(),
                    forall|x: int, y: int|
                        0 <= x < a && 0 <= y < g.1[x].len() ==> !#[trigger] has_button(g.1[x][y]),
                    forall|y: int| 0 <= y < b ==> !#[trigger] has_button(g.1[a as int][y]),
                decreases alt.atoms.len() - b,
            {
                assert(g.1[a as int][b as int] == alt.atoms@[b as int]@);
                if alt.atoms[b].tiene_boton() {
                    return true;
                }
                b = b + 1;
            }
            a = a + 1;
        }
        false
    }
}

// ---------------------------------------------------------------------------
// Reading a hit
// ---------------------------------------------------------------------------

/// First position at or after `i` that holds `ch`, or the length if none.
pub open spec fn find_from(s: Seq<char>, i: int, ch: char) -> int
    decreases s.len() - i,
{
    if i < 0 || i >= s.len() {
        s.len() as int
    } else if s[i] == ch {
        i
    } else {
        find_from(s, i + 1, ch)
    }
}

/// End of the run of ASCII digits that starts at `i`.
pub open spec fn digit_end(s: Seq<char>, i: int) -> int
    decreases s.len() - i,
{
    if 0 <= i < s.len() && is_digit(s[i]) {
        digit_end(s, i + 1)
    } else {
        i
    }
}

/// End of the run of ASCII letters that starts at `i`.
pub open spec fn alpha_end(s: Seq<char>, i: int) -> int
    decreases s.len() - i,
{
    if 0 <= i < s.len() && is_alpha(s[i]) {
        alpha_end(s, i + 1)
    } else {
        i
    }
}

/// A symbol that joins a run of loose text.
pub open spec fn is_loose(c: char) -> bool {
    !is_alnum(c) && c != '(' && c != '[' && c != '.'
}

/// End of the run of loose symbols that starts at `i`.
pub open spec fn loose_end(s: Seq<char>, i: int) -> int
    decreases s.len() - i,
{
    if 0 <= i < s.len() && is_loose(s[i]) {
        loose_end(s, i + 1)
    } else {
        i
    }
}

pub proof fn lemma_find_from(s: Seq<char>, i: int, ch: char)
    requires
        0 <= i,
    ensures
        i <= find_from(s, i, ch) <= s.len() || (i > s.len() && find_from(s, i, ch) == s.len()),
        find_from(s, i, ch) < s.len() ==> s[find_from(s, i, ch)] == ch,
    decreases s.len() - i,
{
    if i < s.len() && s[i] != ch {
        lemma_find_from(s, i + 1, ch);
    }
}

pub proof fn lemma_digit_end(s: Seq<char>, i: int)
    requires
        0 <= i <= s.len(),
    ensures
        i <= digit_end(s, i) <= s.len(),
        forall|k: int| i <= k < digit_end(s, i) ==> is_digit(#[trigger] s[k]),
        digit_end(s, i) < s.len() ==> !is_digit(s[digit_end(s, i)]),
    decreases s.len() - i,
{
    if i < s.len() && is_digit(s[i]) {
        lemma_digit_end(s, i + 1);
    }
}

pub proof fn lemma_alpha_end(s: Seq<char>, i: int)
    requires
        0 <= i <= s.len(),
    ensures
        i <= alpha_end(s, i) <= s.len(),
        forall|k: int| i <= k < alpha_end(s, i) ==> is_alpha(#[trigger] s[k]),
        alpha_end(s, i) < s.len() ==> !is_alpha(s[alpha_end(s, i)]),
    decreases s.len() - i,
{
    if i < s.len() && is_alpha(s[i]) {
        lemma_alpha_end(s, i + 1);
    }
}

pub proof fn lemma_loose_end(s: Seq<char>, i: int)
    requires
        0 <= i <= s.len(),
    ensures
        i <= loose_end(s, i) <= s.len(),
    decreases s.len() - i,
{
    if i < s.len() && is_loose(s[i]) {
        lemma_loose_end(s, i + 1);
    }
}

/// Greedy split of upper-cased letters into button codes, two-letter codes
/// first; `None` as soon as something does not fit.
pub open spec fn decompose(u: Seq<char>) -> Option<Seq<StyleView>>
    decreases u.len(),
{
    if u.len() == 0 {
        Some(seq![])
    } else if u.len() >= 2 && style_of(u.subrange(0, 2)) is Some {
        match decompose(u.subrange(2, u.len() as int)) {
            Some(rest) => Some(seq![style_of(u.subrange(0, 2)).unwrap()] + rest),
            None => None,
        }
    } else if style_of(u.subrange(0, 1)) is Some {
        match decompose(u.subrange(1, u.len() as int)) {
            Some(rest) => Some(seq![style_of(u.subrange(0, 1)).unwrap()] + rest),
            None => None,
        }
    } else {
        None
    }
}

/// Is the whole run of letters buttons one after another? "HH" -> H, H;
/// "LLL" -> L, L, L. `None` when something does not fit, so that words like
/// "land" are not torn apart.
pub open spec fn split_buttons(run: Seq<char>) -> Option<Seq<StyleView>> {
    if run.len() == 0 {
        None
    } else {
        decompose(upper_seq(run))
    }
}

pub open spec fn button_pieces(bs: Seq<StyleView>) -> Seq<PieceView> {
    bs.map_values(|b: StyleView| PieceView::Button(b))
}

/// The prefixes that are not buttons but modify the hit behind them, longest
/// first, in the order they are tried.
pub open spec fn prefix_at(k: int) -> Seq<char> {
    if k == 0 {
        seq!['i', 'a', 'd']
    } else if k == 1 {
        seq!['j', 'c']
    } else if k == 2 {
        seq!['d', 'l']
    } else if k == 3 {
        seq!['j', 'a']
    } else if k == 4 {
        seq!['j']
    } else {
        seq!['g']
    }
}

pub open spec fn prefix_count() -> int {
    6
}

/// A run of letters against the prefixes from the `k`-th on.
pub open spec fn letters_prefixed(run: Seq<char>, k: int) -> Seq<PieceView>
    decreases prefix_count() - k,
{
    if k < 0 || k >= prefix_count() {
        seq![PieceView::Text(run)]
    } else {
        let p = prefix_at(k);
        if starts_with(lower_seq(run), p) && run.len() == p.len() {
            seq![PieceView::Label(run)]
        } else if starts_with(lower_seq(run), p) && split_buttons(
            run.subrange(p.len() as int, run.len() as int),
        ) is Some {
            seq![PieceView::Label(run.subrange(0, p.len() as int))] + button_pieces(
                split_buttons(run.subrange(p.len() as int, run.len() as int)).unwrap(),
            )
        } else {
            letters_prefixed(run, k + 1)
        }
    }
}

/// The pieces of a run of letters; `dot` tells whether a "." followed it.
pub open spec fn letters(run: Seq<char>, dot: bool) -> Seq<PieceView> {
    if dot && style_of(upper_seq(run)) is None {
        seq![PieceView::Label(run.push('.'))]
    } else if split_buttons(run) is Some {
        button_pieces(split_buttons(run).unwrap())
    } else {
        letters_prefixed(run, 0)
    }
}

/// The piece a bracketed direction gives: "[6]" is held; anything else
/// between brackets stays a label, brackets included.
pub open spec fn bracket_piece(s: Seq<char>, i: int, j: int) -> PieceView {
    let inner = s.subrange(i + 1, j);
    if inner.len() > 0 && dir_run(inner) {
        PieceView::Hold(arrows(inner))
    } else {
        PieceView::Label(s.subrange(i, j + 1))
    }
}

pub open spec fn digits_piece(run: Seq<char>) -> PieceView {
    if dir_run(run) {
        PieceView::Directions(arrows(run))
    } else {
        PieceView::Text(run)
    }
}

/// The pieces of a hit from position `i` on.
pub open spec fn scan_atom(s: Seq<char>, i: int) -> Seq<PieceView>
    decreases s.len() - i,
{
    if i < 0 || i >= s.len() {
        seq![]
    } else {
        let c = s[i];
        let paren = find_from(s, i, ')');
        let brack = find_from(s, i, ']');
        if c == '(' && paren < s.len() {
            proof {
                lemma_find_from(s, i, ')');
            }
            seq![PieceView::Label(s.subrange(i, paren + 1))] + scan_atom(s, paren + 1)
        } else if c == '[' && brack < s.len() {
            proof {
                lemma_find_from(s, i, ']');
            }
            seq![bracket_piece(s, i, brack)] + scan_atom(s, brack + 1)
        } else if is_digit(c) {
            let j = digit_end(s, i);
            proof {
                lemma_digit_end(s, i + 1);
            }
            seq![digits_piece(s.subrange(i, j))] + scan_atom(s, j)
        } else if is_alpha(c) {
            let j = alpha_end(s, i);
            proof {
                lemma_alpha_end(s, i + 1);
            }
            let dot = j < s.len() && s[j] == '.';
            letters(s.subrange(i, j), dot) + scan_atom(
                s,
                if dot {
                    j + 1
                } else {
                    j
                },
            )
        } else if c == '.' {
            scan_atom(s, i + 1)
        } else {
            let j = loose_end(s, i + 1);
            proof {
                lemma_loose_end(s, i + 1);
            }
            seq![PieceView::Text(s.subrange(i, j))] + scan_atom(s, j)
        }
    }
}

/// The pieces of a hit: what the scan finds, or the whole text when the scan
/// finds nothing in text that is not empty (a hit made only of dots).
pub open spec fn atom_spec(s: Seq<char>) -> Seq<PieceView> {
    if scan_atom(s, 0).len() == 0 && s.len() > 0 {
        seq![PieceView::Text(s)]
    } else {
        scan_atom(s, 0)
    }
}

/// Greedy split of `run[lo..]` into buttons, upper-casing as it goes.
fn descomponer_botones(run: &Vec<char>, lo: usize) -> (r: Option<Vec<ButtonStyle>>)
    requires
        lo <= run.len(),
    ensures
        match r {
            Some(v) => split_buttons(run@.subrange(lo as int, run.len() as int)) == Some(
                v@.map_values(|b: ButtonStyle| b@),
            ),
            None => split_buttons(run@.subrange(lo as int, run.len() as int)) is None,
        },
{
    let ghost whole = upper_seq(run@.subrange(lo as int, run.len() as int));
    if lo == run.len() {
        return None;
    }
    let mut out: Vec<ButtonStyle> = Vec::new();
    let mut i = lo;
    while i < run.len()
        invariant
            lo <= i <= run.len(),
            whole == upper_seq(run@.subrange(lo as int, run.len() as int)),
            decompose(whole) == match decompose(upper_seq(run@.subrange(i as int, run.len() as int))) {
                Some(rest) => Some(out@.map_values(|b: ButtonStyle| b@) + rest),
                None => None::<Seq<StyleView>>,
            },
        decreases run.len() - i,
    {
        let ghost u = upper_seq(run@.subrange(i as int, run.len() as int));
        let ghost before = out@.map_values(|b: ButtonStyle| b@);
        let mut step: usize = 0;
        if run.len() - i >= 2 {
            match style_upper(run, i, 2) {
                Some(b) => {
                    assert(u.subrange(0, 2) =~= upper_seq(run@.subrange(i as int, i + 2)));
                    assert(u.subrange(2, u.len() as int) =~= upper_seq(
                        run@.subrange(i + 2, run.len() as int),
                    ));
                    out.push(b);
                    step = 2;
                },
                None => {
                    assert(u.subrange(0, 2) =~= upper_seq(run@.subrange(i as int, i + 2)));
                },
            }
        }
        if step == 0 {
            match style_upper(run, i, 1) {
                Some(b) => {
                    assert(u.subrange(0, 1) =~= upper_seq(run@.subrange(i as int, i + 1)));
                    assert(u.subrange(1, u.len() as int) =~= upper_seq(
                        run@.subrange(i + 1, run.len() as int),
                    ));
                    out.push(b);
                    step = 1;
                },
                None => {
                    assert(u.subrange(0, 1) =~= upper_seq(run@.subrange(i as int, i + 1)));
                    assert(decompose(u) is None);
                    return None;
                },
            }
        }
        proof {
            let after = out@.map_values(|b: ButtonStyle| b@);
            assert(after =~= before.push(after.last()));
            match decompose(upper_seq(run@.subrange(i + step, run.len() as int))) {
                Some(rest) => {
                    assert(before + (seq![after.last()] + rest) =~= after + rest);
                },
                None => {},
            }
        }
        i = i + step;
    }
    assert(upper_seq(run@.subrange(i as int, run.len() as int)) =~= seq![]);
    assert(out@.map_values(|b: ButtonStyle| b@) + seq![] =~= out@.map_values(|b: ButtonStyle| b@));
    Some(out)
}

/// The characters of a prefix, to compare with.
fn prefix_chars(k: usize) -> (r: Vec<char>)
    requires
        k < 6,
    ensures
        r@ == prefix_at(k as int),
{
    let mut r: Vec<char> = Vec::new();
    if k == 0 {
        r.push('i');
        r.push('a');
        r.push('d');
    } else if k == 1 {
        r.push('j');
        r.push('c');
    } else if k == 2 {
        r.push('d');
        r.push('l');
    } else if k == 3 {
        r.push('j');
        r.push('a');
    } else if k == 4 {
        r.push('j');
    } else {
        r.push('g');
    }
    assert(r@ =~= prefix_at(k as int));
    r
}

/// Whether `run[lo..hi]`, ASCII lower-cased, starts with `p`.
fn lower_starts_with(run: &Vec<char>, lo: usize, hi: usize, p: &Vec<char>) -> (r: bool)
    requires
        lo <= hi <= run.len(),
    ensures
        r == starts_with(lower_seq(run@.subrange(lo as int, hi as int)), p@),
{
    let ghost l = lower_seq(run@.subrange(lo as int, hi as int));
    if p.len() > hi - lo {
        return false;
    }
    let mut k: usize = 0;
    while k < p.len()
        invariant
            p.len() <= hi - lo,
            lo <= hi <= run.len(),
            l == lower_seq(run@.subrange(lo as int, hi as int)),
            0 <= k <= p.len(),
            forall|j: int| 0 <= j < k ==> l[j] == p@[j],
        decreases p.len() - k,
    {
        if to_lower_char(run[lo + k]) != p[k] {
            assert(l.subrange(0, p.len() as int)[k as int] != p@[k as int]);
            return false;
        }
        k = k + 1;
    }
    assert(l.subrange(0, p.len() as int) =~= p@);
    true
}

fn push_buttons(out: &mut Vec<Piece>, bs: Vec<ButtonStyle>)
    ensures
        piece_views(final(out)@) == piece_views(old(out)@) + button_pieces(
            bs@.map_values(|b: ButtonStyle| b@),
        ),
{
    let mut i: usize = 0;
    while i < bs.len()
        invariant
            0 <= i <= bs.len(),
            piece_views(out@) == piece_views(old(out)@) + button_pieces(
                bs@.subrange(0, i as int).map_values(|b: ButtonStyle| b@),
            ),
        decreases bs.len() - i,
    {
        let ghost before = out@;
        out.push(Piece::Button(bs[i]));
        i = i + 1;
        assert(piece_views(out@) =~= piece_views(before).push(PieceView::Button(bs@[i - 1]@)));
        assert(button_pieces(bs@.subrange(0, i as int).map_values(|b: ButtonStyle| b@))
            =~= button_pieces(bs@.subrange(0, i - 1).map_values(|b: ButtonStyle| b@)).push(
            PieceView::Button(bs@[i - 1]@),
        ));
    }
    assert(bs@.subrange(0, bs.len() as int) =~= bs@);
}

fn push_piece(out: &mut Vec<Piece>, p: Piece)
    ensures
        piece_views(final(out)@) == piece_views(old(out)@).push(p@),
{
    out.push(p);
    assert(piece_views(out@) =~= piece_views(old(out)@).push(p@));
}

/// Reads the run of letters `run[lo..hi]`; `dot` tells whether a "."
/// followed it.
fn piezas_de_letras(run: &Vec<char>, lo: usize, hi: usize, dot: bool, out: &mut Vec<Piece>)
    requires
        lo < hi <= run.len(),
    ensures
        piece_views(final(out)@) == piece_views(old(out)@) + letters(
            run@.subrange(lo as int, hi as int),
            dot,
        ),
{
    let ghost r = run@.subrange(lo as int, hi as int);
    let mut word: Vec<char> = Vec::new();
    let mut i = lo;
    while i < hi
        invariant
            lo <= i <= hi <= run.len(),
            word@ == run@.subrange(lo as int, i as int),
        decreases hi - i,
    {
        word.push(run[i]);
        i = i + 1;
        assert(word@ =~= run@.subrange(lo as int, i as int));
    }
    assert(word@ == r);
    // "g.", "j." and any other prefix followed by a dot: a label.
    if dot {
        let whole = if word.len() <= 2 {
            style_upper(&word, 0, word.len())
        } else {
            None
        };
        proof {
            if word.len() <= 2 {
                assert(word@.subrange(0, word.len() as int) =~= word@);
            } else {
                assert(style_of(upper_seq(r)).is_none()) by {
                    assert(upper_seq(r).len() > 2);
                }
            }
        }
        if whole.is_none() {
            let mut label = string_of_all(&word);
            crate::text::push_char(&mut label, '.');
            push_piece(out, Piece::Label(label));
            return ;
        }
    }
    // Buttons one after another: "M", "HH", "LLL", "QS".

    match descomponer_botones(&word, 0) {
        Some(bs) => {
            assert(word@.subrange(0, word.len() as int) =~= word@);
            push_buttons(out, bs);
            return ;
        },
        None => {
            assert(word@.subrange(0, word.len() as int) =~= word@);
        },
    }
    // A known prefix with buttons behind: "JM" -> j + M, "jc" -> jc.
    let mut k: usize = 0;
    while k < 6
        invariant
            0 <= k <= 6,
            lo < hi <= run.len(),
            r == run@.subrange(lo as int, hi as int),
            word@ == r,
            r.len() > 0,
            letters(r, dot) == letters_prefixed(r, k as int),
            piece_views(out@) == piece_views(old(out)@),
        decreases 6 - k,
    {
        let p = prefix_chars(k);
        let starts = lower_starts_with(&word, 0, word.len(), &p);
        assert(word@.subrange(0, word.len() as int) =~= word@);
        if starts {
            if p.len() == word.len() {
                assert(letters_prefixed(r, k as int) == seq![PieceView::Label(r)]);
                push_piece(out, Piece::Label(string_of_all(&word)));
                assert(piece_views(out@) =~= piece_views(old(out)@) + letters(r, dot));
                return ;
            }
            match descomponer_botones(&word, p.len()) {
                Some(bs) => {
                    assert(word@.subrange(p.len() as int, word.len() as int) =~= r.subrange(
                        prefix_at(k as int).len() as int,
                        r.len() as int,
                    ));
                    assert(letters_prefixed(r, k as int) == seq![
                        PieceView::Label(r.subrange(0, p.len() as int)),
                    ] + button_pieces(bs@.map_values(|b: ButtonStyle| b@)));
                    push_piece(out, Piece::Label(string_of(&word, 0, p.len())));
                    push_buttons(out, bs);
                    assert(piece_views(out@) =~= piece_views(old(out)@) + letters(r, dot));
                    return ;
                },
                None => {
                    assert(word@.subrange(p.len() as int, word.len() as int) =~= r.subrange(
                        prefix_at(k as int).len() as int,
                        r.len() as int,
                    ));
                },
            }
        }
        k = k + 1;
    }
    // An ordinary word: "land", "held", "Freedom".
    push_piece(out, Piece::Text(string_of_all(&word)));
}

/// First position at or after `i` that holds `ch`, or the length.
pub(crate) fn find_char(v: &Vec<char>, i: usize, ch: char) -> (r: usize)
    requires
        i <= v.len(),
    ensures
        r == find_from(v@, i as int, ch),
{
    let mut k = i;
    while k < v.len() && v[k] != ch
        invariant
            i <= k <= v.len(),
            find_from(v@, i as int, ch) == find_from(v@, k as int, ch),
        decreases v.len() - k,
    {
        k = k + 1;
    }
    k
}

/// Cuts a single hit (separators already gone) into its pieces.
fn parse_atom(sub: &Vec<char>) -> (a: Atom)
    ensures
        a@ == atom_spec(sub@),
{
    let ghost s = sub@;
    let n = sub.len();
    let mut pieces: Vec<Piece> = Vec::new();
    let mut i: usize = 0;
    while i < n
        invariant
            n == sub.len(),
            0 <= i <= n,
            s == sub@,
            piece_views(pieces@) + scan_atom(s, i as int) == scan_atom(s, 0),
        decreases n - i,
    {
        let c = sub[i];
        let ghost before = piece_views(pieces@);
        // An annotation between brackets: "(JC)", "(okizeme)".
        if c == '(' {
            let j = find_char(sub, i, ')');
            if j < n {
                proof {
                    lemma_find_from(s, i as int, ')');
                }
                push_piece(&mut pieces, Piece::Label(string_of(sub, i, j + 1)));
                assert(before + scan_atom(s, i as int) =~= piece_views(pieces@) + scan_atom(
                    s,
                    j + 1,
                ));
                i = j + 1;
                continue;
            }
        }
        // A held direction: "[6]". Without directions inside, a label
        // rather than anything made up.
        if c == '[' {
            let j = find_char(sub, i, ']');
            if j < n {
                proof {
                    lemma_find_from(s, i as int, ']');
                    assert(find_from(s, i as int, ')') == i || c != '(' || find_from(
                        s,
                        i as int,
                        ')',
                    ) >= n);
                }
                let inner = arrows_of(sub, i + 1, j);
                match inner {
                    Some(f) => {
                        if j > i + 1 {
                            push_piece(&mut pieces, Piece::Hold(f));
                        } else {
                            push_piece(&mut pieces, Piece::Label(string_of(sub, i, j + 1)));
                        }
                    },
                    None => {
                        push_piece(&mut pieces, Piece::Label(string_of(sub, i, j + 1)));
                    },
                }
                assert(before + scan_atom(s, i as int) =~= piece_views(pieces@) + scan_atom(
                    s,
                    j + 1,
                ));
                i = j + 1;
                continue;
            }
        }
        if is_digit_char(c) {
            let start = i;
            while i < n && is_digit_char(sub[i])
                invariant
                    start <= i <= n == sub.len(),
                    s == sub@,
                    digit_end(s, start as int) == digit_end(s, i as int),
                decreases n - i,
            {
                i = i + 1;
            }
            proof {
                lemma_digit_end(s, start + 1);
            }
            match arrows_of(sub, start, i) {
                Some(f) => push_piece(&mut pieces, Piece::Directions(f)),
                // Carries a 0, which is no direction.
                None => push_piece(&mut pieces, Piece::Text(string_of(sub, start, i))),
            }
            assert(before + scan_atom(s, start as int) =~= piece_views(pieces@) + scan_atom(
                s,
                i as int,
            ));
            continue;
        }
        if is_alpha_char(c) {
            let start = i;
            while i < n && is_alpha_char(sub[i])
                invariant
                    start <= i <= n == sub.len(),
                    s == sub@,
                    alpha_end(s, start as int) == alpha_end(s, i as int),
                decreases n - i,
            {
                i = i + 1;
            }
            proof {
                lemma_alpha_end(s, start + 1);
            }
            let dot = i < n && sub[i] == '.';
            piezas_de_letras(sub, start, i, dot, &mut pieces);
            if dot {
                i = i + 1;
            }
            assert(before + scan_atom(s, start as int) =~= piece_views(pieces@) + scan_atom(
                s,
                i as int,
            ));
            continue;
        }
        // A loose dot: skipped, the prefixes already use it.
        if c == '.' {
            i = i + 1;
            continue;
        }
        // Any other symbol gathers with those after it and shows as it is.
        //
        // The first character is ALWAYS taken before looking at anything
        // else. That is what keeps an unclosed "(" or "[" from stopping the
        // loop where it stands.
        let start = i;
        i = i + 1;
        while i < n && !is_alpha_char(sub[i]) && !is_digit_char(sub[i]) && sub[i] != '('
            && sub[i] != '[' && sub[i] != '.'
            invariant
                start < i <= n == sub.len(),
                s == sub@,
                loose_end(s, start + 1) == loose_end(s, i as int),
            decreases n - i,
        {
            i = i + 1;
        }
        push_piece(&mut pieces, Piece::Text(string_of(sub, start, i)));
        assert(before + scan_atom(s, start as int) =~= piece_views(pieces@) + scan_atom(
            s,
            i as int,
        ));
    }
    assert(piece_views(pieces@) + scan_atom(s, i as int) =~= piece_views(pieces@));
    if pieces.len() == 0 && n > 0 {
        push_piece(&mut pieces, Piece::Text(string_of_all(sub)));
        assert(piece_views(pieces@) =~= seq![PieceView::Text(s)]);
    }
    Atom { pieces }
}

// ---------------------------------------------------------------------------
// Reading the whole notation
// ---------------------------------------------------------------------------

/// How each character reads before splitting: the long arrow is the same as
/// ">", commas and hyphens only separate, and the connectors become tokens of
/// their own even when glued to their neighbours.
pub open spec fn expand(c: char) -> Seq<char> {
    if c == '→' || c == '>' {
        seq![' ', '>', ' ']
    } else if c == '<' {
        seq![' ', '<', ' ']
    } else if c == ',' || c == '-' {
        seq![' ']
    } else {
        seq![c]
    }
}

pub open spec fn spaced(s: Seq<char>) -> Seq<char>
    decreases s.len(),
{
    if s.len() == 0 {
        seq![]
    } else {
        spaced(s.drop_last()) + expand(s.last())
    }
}

pub open spec fn alternative_spec(alt: Seq<char>) -> Seq<Seq<PieceView>> {
    char_split(alt, '+').map_values(|a: Seq<char>| atom_spec(a))
}

pub open spec fn group_spec(link: Option<char>, token: Seq<char>) -> GroupView {
    (link, char_split(token, '/').map_values(|alt: Seq<char>| alternative_spec(alt)))
}

/// The groups the tokens from the `i`-th on give, with `link` the connector
/// still waiting for its group.
pub open spec fn groups_from(toks: Seq<Seq<char>>, i: int, link: Option<char>) -> Seq<GroupView>
    decreases toks.len() - i,
{
    if i < 0 || i >= toks.len() {
        seq![]
    } else if toks[i] == seq!['>'] {
        groups_from(toks, i + 1, Some('>'))
    } else if toks[i] == seq!['<'] {
        groups_from(toks, i + 1, Some('<'))
    } else {
        seq![group_spec(link, toks[i])] + groups_from(toks, i + 1, None)
    }
}

/// The groups of a whole notation.
pub open spec fn parse_spec(raw: Seq<char>) -> Seq<GroupView> {
    groups_from(ws_split(spaced(raw)), 0, None)
}

pub open spec fn group_views(v: Seq<Group>) -> Seq<GroupView> {
    v.map_values(|g: Group| g@)
}

fn spaced_chars(v: &Vec<char>) -> (r: Vec<char>)
    ensures
        r@ == spaced(v@),
{
    let mut r: Vec<char> = Vec::new();
    let mut i: usize = 0;
    while i < v.len()
        invariant
            0 <= i <= v.len(),
            r@ == spaced(v@.subrange(0, i as int)),
        decreases v.len() - i,
    {
        let c = v[i];
        let ghost before = r@;
        if c == '→' || c == '>' {
            r.push(' ');
            r.push('>');
            r.push(' ');
        } else if c == '<' {
            r.push(' ');
            r.push('<');
            r.push(' ');
        } else if c == ',' || c == '-' {
            r.push(' ');
        } else {
            r.push(c);
        }
        assert(v@.subrange(0, i + 1).drop_last() =~= v@.subrange(0, i as int));
        i = i + 1;
        assert(r@ =~= before + expand(c));
    }
    assert(v@.subrange(0, v.len() as int) =~= v@);
    r
}

fn parse_alternative(alt: &Vec<char>) -> (r: Alternative)
    ensures
        r@ == alternative_spec(alt@),
{
    let parts = split_char(alt, '+');
    let mut atoms: Vec<Atom> = Vec::new();
    let mut i: usize = 0;
    while i < parts.len()
        invariant
            0 <= i <= parts.len(),
            char_views(parts@) == char_split(alt@, '+'),
            atoms@.map_values(|a: Atom| a@) == char_views(parts@).subrange(0, i as int).map_values(
                |a: Seq<char>| atom_spec(a),
            ),
        decreases parts.len() - i,
    {
        assert(char_views(parts@)[i as int] == parts@[i as int]@);
        let ghost prev = atoms@.map_values(|a: Atom| a@);
        let a = parse_atom(&parts[i]);
        let ghost av = a@;
        atoms.push(a);
        assert(atoms@.map_values(|a: Atom| a@) =~= prev.push(av));
        assert(char_views(parts@).subrange(0, i + 1).map_values(|a: Seq<char>| atom_spec(a))
            =~= char_views(parts@).subrange(0, i as int).map_values(|a: Seq<char>| atom_spec(a)).push(
            atom_spec(char_views(parts@)[i as int]),
        ));
        i = i + 1;
    }
    assert(char_views(parts@).subrange(0, parts.len() as int) =~= char_views(parts@));
    Alternative { atoms }
}

fn parse_group(link: Option<char>, token: &Vec<char>) -> (g: Group)
    ensures
        g@ == group_spec(link, token@),
{
    let parts = split_char(token, '/');
    let mut alternatives: Vec<Alternative> = Vec::new();
    let mut i: usize = 0;
    while i < parts.len()
        invariant
            0 <= i <= parts.len(),
            char_views(parts@) == char_split(token@, '/'),
            alternatives@.map_values(|a: Alternative| a@) == char_views(parts@).subrange(
                0,
                i as int,
            ).map_values(|alt: Seq<char>| alternative_spec(alt)),
        decreases parts.len() - i,
    {
        assert(char_views(parts@)[i as int] == parts@[i as int]@);
        let ghost prev = alternatives@.map_values(|a: Alternative| a@);
        let a = parse_alternative(&parts[i]);
        let ghost av = a@;
        alternatives.push(a);
        assert(alternatives@.map_values(|a: Alternative| a@) =~= prev.push(av));
        assert(char_views(parts@).subrange(0, i + 1).map_values(|alt: Seq<char>| alternative_spec(alt))
            =~= char_views(parts@).subrange(0, i as int).map_values(
            |alt: Seq<char>| alternative_spec(alt),
        ).push(alternative_spec(char_views(parts@)[i as int])));
        i = i + 1;
    }
    assert(char_views(parts@).subrange(0, parts.len() as int) =~= char_views(parts@));
    Group { link, alternatives }
}

/// Cuts the whole notation into paintable groups.
pub fn parse(raw: &str) -> (r: Vec<Group>)
    ensures
        group_views(r@) == parse_spec(raw@),
{
    let chars = chars_of(raw);
    let spread = spaced_chars(&chars);
    let tokens = split_ws(&spread);
    let ghost toks = char_views(tokens@);
    let mut groups: Vec<Group> = Vec::new();
    let mut link: Option<char> = None;
    let mut i: usize = 0;
    while i < tokens.len()
        invariant
            0 <= i <= tokens.len(),
            toks == char_views(tokens@),
            toks == ws_split(spaced(raw@)),
            group_views(groups@) + groups_from(toks, i as int, link) == parse_spec(raw@),
        decreases tokens.len() - i,
    {
        let t = &tokens[i];
        assert(toks[i as int] == t@);
        if t.len() == 1 && t[0] == '>' {
            assert(t@ =~= seq!['>']);
            link = Some('>');
        } else if t.len() == 1 && t[0] == '<' {
            assert(t@ =~= seq!['<']);
            link = Some('<');
        } else {
            assert(t@ != seq!['>']);
            assert(t@ != seq!['<']);
            let ghost before = group_views(groups@);
            let g = parse_group(link, t);
            groups.push(g);
            assert(group_views(groups@) =~= before.push(group_spec(link, t@)));
            assert(before + groups_from(toks, i as int, link) =~= group_views(groups@)
                + groups_from(toks, i + 1, None));
            link = None;
        }
        i = i + 1;
    }
    assert(group_views(groups@) + groups_from(toks, i as int, link) =~= group_views(groups@));
    groups
}

// ---------------------------------------------------------------------------
// What always holds of a parse
// ---------------------------------------------------------------------------

/// A piece that carries text carries some.
pub open spec fn piece_not_empty(p: PieceView) -> bool {
    match p {
        PieceView::Label(t) => t.len() > 0,
        PieceView::Directions(t) => t.len() > 0,
        PieceView::Hold(t) => t.len() > 0,
        PieceView::Text(t) => t.len() > 0,
        PieceView::Button(_) => true,
    }
}

pub open spec fn pieces_not_empty(p: Seq<PieceView>) -> bool {
    forall|k: int| 0 <= k < p.len() ==> piece_not_empty(#[trigger] p[k])
}

proof fn lemma_buttons_not_empty(bs: Seq<StyleView>)
    ensures
        pieces_not_empty(button_pieces(bs)),
{
}

proof fn lemma_letters_prefixed_not_empty(run: Seq<char>, k: int)
    requires
        run.len() > 0,
    ensures
        pieces_not_empty(letters_prefixed(run, k)),
    decreases prefix_count() - k,
{
    if 0 <= k < prefix_count() {
        let p = prefix_at(k);
        if starts_with(lower_seq(run), p) && run.len() == p.len() {
        } else if starts_with(lower_seq(run), p) && split_buttons(
            run.subrange(p.len() as int, run.len() as int),
        ) is Some {
            let b = button_pieces(
                split_buttons(run.subrange(p.len() as int, run.len() as int)).unwrap(),
            );
            lemma_buttons_not_empty(
                split_buttons(run.subrange(p.len() as int, run.len() as int)).unwrap(),
            );
            let l = seq![PieceView::Label(run.subrange(0, p.len() as int))];
            assert forall|x: int| 0 <= x < (l + b).len() implies piece_not_empty(
                #[trigger] (l + b)[x],
            ) by {
                if x > 0 {
                    assert((l + b)[x] == b[x - 1]);
                }
            }
        } else {
            lemma_letters_prefixed_not_empty(run, k + 1);
        }
    }
}

proof fn lemma_concat_not_empty(a: Seq<PieceView>, b: Seq<PieceView>)
    requires
        pieces_not_empty(a),
        pieces_not_empty(b),
    ensures
        pieces_not_empty(a + b),
{
    assert forall|x: int| 0 <= x < (a + b).len() implies piece_not_empty(#[trigger] (a + b)[x]) by {
        if x >= a.len() {
            assert((a + b)[x] == b[x - a.len()]);
        } else {
            assert((a + b)[x] == a[x]);
        }
    }
}

proof fn lemma_scan_not_empty(s: Seq<char>, i: int)
    requires
        0 <= i,
    ensures
        pieces_not_empty(scan_atom(s, i)),
    decreases s.len() - i,
{
    if i < s.len() {
        let c = s[i];
        let paren = find_from(s, i, ')');
        let brack = find_from(s, i, ']');
        lemma_find_from(s, i, ')');
        lemma_find_from(s, i, ']');
        if c == '(' && paren < s.len() {
            lemma_scan_not_empty(s, paren + 1);
            lemma_concat_not_empty(
                seq![PieceView::Label(s.subrange(i, paren + 1))],
                scan_atom(s, paren + 1),
            );
        } else if c == '[' && brack < s.len() {
            lemma_scan_not_empty(s, brack + 1);
            lemma_concat_not_empty(seq![bracket_piece(s, i, brack)], scan_atom(s, brack + 1));
        } else if is_digit(c) {
            let j = digit_end(s, i);
            lemma_digit_end(s, i + 1);
            lemma_scan_not_empty(s, j);
            lemma_concat_not_empty(seq![digits_piece(s.subrange(i, j))], scan_atom(s, j));
        } else if is_alpha(c) {
            let j = alpha_end(s, i);
            lemma_alpha_end(s, i + 1);
            let dot = j < s.len() && s[j] == '.';
            let run = s.subrange(i, j);
            let next = if dot {
                j + 1
            } else {
                j
            };
            lemma_scan_not_empty(s, next);
            if !(dot && style_of(upper_seq(run)) is None) {
                if split_buttons(run) is Some {
                    lemma_buttons_not_empty(split_buttons(run).unwrap());
                } else {
                    lemma_letters_prefixed_not_empty(run, 0);
                }
            }
            lemma_concat_not_empty(letters(run, dot), scan_atom(s, next));
        } else if c == '.' {
            lemma_scan_not_empty(s, i + 1);
        } else {
            let j = loose_end(s, i + 1);
            lemma_loose_end(s, i + 1);
            lemma_scan_not_empty(s, j);
            lemma_concat_not_empty(seq![PieceView::Text(s.subrange(i, j))], scan_atom(s, j));
        }
    }
}

/// Nothing is lost in a hit: it gives no pieces exactly when its text is
/// empty, and no piece that carries text comes out empty ("L//M" leaves no
/// empty label behind).
pub proof fn lemma_atom_keeps_text(s: Seq<char>)
    ensures
        (atom_spec(s).len() == 0) == (s.len() == 0),
        pieces_not_empty(atom_spec(s)),
{
    lemma_scan_not_empty(s, 0);
}

/// Every piece of every hit of a parsed notation that carries text carries
/// some.
pub proof fn lemma_parse_pieces_not_empty(raw: Seq<char>, g: int, a: int, h: int)
    requires
        0 <= g < parse_spec(raw).len(),
        0 <= a < parse_spec(raw)[g].1.len(),
        0 <= h < parse_spec(raw)[g].1[a].len(),
    ensures
        pieces_not_empty(parse_spec(raw)[g].1[a][h]),
{
    lemma_parse_groups(raw);
    let t = plain_tokens(ws_split(spaced(raw)), 0)[g];
    let alts = char_split(t, '/');
    let alt = alts[a];
    let atoms = char_split(alt, '+');
    assert(parse_spec(raw)[g].1[a][h] == atom_spec(atoms[h]));
    lemma_atom_keeps_text(atoms[h]);
}

proof fn lemma_char_split_from_nonempty(s: Seq<char>, sep: char, i: int, cur: Seq<char>)
    ensures
        char_split_from(s, sep, i, cur).len() >= 1,
    decreases s.len() - i,
{
    if 0 <= i < s.len() {
        if s[i] == sep {
            lemma_char_split_from_nonempty(s, sep, i + 1, seq![]);
        } else {
            lemma_char_split_from_nonempty(s, sep, i + 1, cur.push(s[i]));
        }
    }
}

/// Splitting by a character always leaves at least one piece.
pub proof fn lemma_char_split_nonempty(s: Seq<char>, sep: char)
    ensures
        char_split(s, sep).len() >= 1,
{
    lemma_char_split_from_nonempty(s, sep, 0, seq![]);
}

/// The tokens that become groups: all but the connectors.
pub open spec fn plain_tokens(toks: Seq<Seq<char>>, i: int) -> Seq<Seq<char>>
    decreases toks.len() - i,
{
    if i < 0 || i >= toks.len() {
        seq![]
    } else if toks[i] == seq!['>'] || toks[i] == seq!['<'] {
        plain_tokens(toks, i + 1)
    } else {
        seq![toks[i]] + plain_tokens(toks, i + 1)
    }
}

proof fn lemma_groups_from_shape(toks: Seq<Seq<char>>, i: int, link: Option<char>)
    ensures
        groups_from(toks, i, link).len() == plain_tokens(toks, i).len(),
        forall|g: int|
            0 <= g < groups_from(toks, i, link).len() ==> (#[trigger] groups_from(
                toks,
                i,
                link,
            )[g]).1 == group_spec(None, plain_tokens(toks, i)[g]).1,
    decreases toks.len() - i,
{
    if 0 <= i < toks.len() {
        if toks[i] == seq!['>'] {
            lemma_groups_from_shape(toks, i + 1, Some('>'));
        } else if toks[i] == seq!['<'] {
            lemma_groups_from_shape(toks, i + 1, Some('<'));
        } else {
            lemma_groups_from_shape(toks, i + 1, None);
            let head = seq![group_spec(link, toks[i])];
            let rest = groups_from(toks, i + 1, None);
            let pt = plain_tokens(toks, i);
            assert forall|g: int| 0 <= g < (head + rest).len() implies (#[trigger] (head
                + rest)[g]).1 == group_spec(None, pt[g]).1 by {
                if g > 0 {
                    assert((head + rest)[g] == rest[g - 1]);
                    assert(pt[g] == plain_tokens(toks, i + 1)[g - 1]);
                }
            }
        }
    }
}

/// The groups of a notation are its tokens that are not connectors, in
/// order, each read on its own.
pub proof fn lemma_parse_groups(raw: Seq<char>)
    ensures
        parse_spec(raw).len() == plain_tokens(ws_split(spaced(raw)), 0).len(),
        forall|g: int|
            0 <= g < parse_spec(raw).len() ==> (#[trigger] parse_spec(raw)[g]).1 == group_spec(
                None,
                plain_tokens(ws_split(spaced(raw)), 0)[g],
            ).1,
{
    lemma_groups_from_shape(ws_split(spaced(raw)), 0, None);
}

/// Every group of a parsed notation has at least one alternative, and every
/// alternative at least one hit.
pub proof fn lemma_parse_shape(raw: Seq<char>, g: int)
    requires
        0 <= g < parse_spec(raw).len(),
    ensures
        parse_spec(raw)[g].1.len() >= 1,
        forall|a: int|
            0 <= a < parse_spec(raw)[g].1.len() ==> (#[trigger] parse_spec(raw)[g].1[a]).len() >= 1,
{
    lemma_parse_groups(raw);
    let t = plain_tokens(ws_split(spaced(raw)), 0)[g];
    lemma_char_split_nonempty(t, '/');
    assert forall|a: int| 0 <= a < parse_spec(raw)[g].1.len() implies (
    #[trigger] parse_spec(raw)[g].1[a]).len() >= 1 by {
        lemma_char_split_nonempty(char_split(t, '/')[a], '+');
    }
}

/// A character that only separates hits.
pub open spec fn is_separator(c: char) -> bool {
    is_ws(c) || c == ',' || c == '-'
}

proof fn lemma_spaced_blank(s: Seq<char>)
    requires
        forall|k: int| 0 <= k < s.len() ==> is_separator(#[trigger] s[k]),
    ensures
        forall|k: int| 0 <= k < spaced(s).len() ==> is_ws(#[trigger] spaced(s)[k]),
    decreases s.len(),
{
    if s.len() > 0 {
        let d = s.drop_last();
        assert forall|k: int| 0 <= k < d.len() implies is_separator(#[trigger] d[k]) by {
            assert(d[k] == s[k]);
        }
        lemma_spaced_blank(d);
        let e = expand(s.last());
        assert(is_separator(s[s.len() - 1]));
        assert forall|k: int| 0 <= k < spaced(s).len() implies is_ws(#[trigger] spaced(s)[k]) by {
            if k < spaced(d).len() {
                assert(spaced(s)[k] == spaced(d)[k]);
            } else {
                assert(spaced(s)[k] == e[k - spaced(d).len()]);
            }
        }
    }
}

proof fn lemma_ws_split_blank(s: Seq<char>, i: int)
    requires
        0 <= i,
        forall|k: int| 0 <= k < s.len() ==> is_ws(#[trigger] s[k]),
    ensures
        ws_split_from(s, i, seq![]) == Seq::<Seq<char>>::empty(),
    decreases s.len() - i,
{
    if i < s.len() {
        lemma_ws_split_blank(s, i + 1);
        assert(is_ws(s[i]));
        assert(Seq::<Seq<char>>::empty() + ws_split_from(s, i + 1, seq![]) =~= Seq::<
            Seq<char>,
        >::empty());
    }
}

/// A notation made only of spaces, commas and hyphens gives no groups.
pub proof fn lemma_blank_notation(raw: Seq<char>)
    requires
        forall|k: int| 0 <= k < raw.len() ==> is_separator(#[trigger] raw[k]),
    ensures
        parse_spec(raw) == Seq::<GroupView>::empty(),
{
    lemma_spaced_blank(raw);
    lemma_ws_split_blank(spaced(raw), 0);
}

/// Two characters that read the same: a comma, a hyphen and a space all
/// only separate, and the long arrow is ">".
pub open spec fn same_reading(a: char, b: char) -> bool {
    a == b || ((a == ',' || a == '-' || a == ' ') && (b == ',' || b == '-' || b == ' ')) || ((a
        == '→' || a == '>') && (b == '→' || b == '>'))
}

proof fn lemma_spaced_same(a: Seq<char>, b: Seq<char>)
    requires
        a.len() == b.len(),
        forall|k: int| 0 <= k < a.len() ==> same_reading(#[trigger] a[k], b[k]),
    ensures
        spaced(a) == spaced(b),
    decreases a.len(),
{
    if a.len() > 0 {
        assert forall|k: int| 0 <= k < a.drop_last().len() implies same_reading(
            #[trigger] a.drop_last()[k],
            b.drop_last()[k],
        ) by {
            assert(a.drop_last()[k] == a[k]);
            assert(b.drop_last()[k] == b[k]);
        }
        lemma_spaced_same(a.drop_last(), b.drop_last());
        assert(same_reading(a[a.len() - 1], b[b.len() - 1]));
        assert(expand(a.last()) == expand(b.last()));
    }
}

/// The separators are interchangeable: writing a space or a hyphen where
/// there was a comma (or any of them for another), or ">" where there was
/// "→", changes nothing in the result.
pub proof fn lemma_separators_interchangeable(a: Seq<char>, b: Seq<char>)
    requires
        a.len() == b.len(),
        forall|k: int| 0 <= k < a.len() ==> same_reading(#[trigger] a[k], b[k]),
    ensures
        parse_spec(a) == parse_spec(b),
{
    lemma_spaced_same(a, b);
}

/// The numpad compass: the arrow drawn for each direction digit, from 1 to
/// 9, as the keys sit on a numeric keypad (1 is down-back, 5 is neutral,
/// 9 is up-forward).
pub open spec fn numpad_compass() -> Seq<char> {
    seq!['↙', '↓', '↘', '←', '•', '→', '↖', '↑', '↗']
}

/// Whether `a` draws the direction digits of `d` one by one, each by the
/// numpad compass.
pub open spec fn draws_numpad(d: Seq<char>, a: Seq<char>) -> bool {
    &&& a.len() == d.len()
    &&& forall|i: int|
        0 <= i < d.len() ==> #[trigger] a[i] == numpad_compass()[(d[i] as int) - ('1' as int)]
}

/// The end of a run of digits that stops where the digits stop.
pub proof fn lemma_digit_end_at(s: Seq<char>, n: int, i: int)
    requires
        0 <= i <= n <= s.len(),
        forall|k: int| 0 <= k < n ==> is_digit(#[trigger] s[k]),
        n == s.len() || !is_digit(s[n]),
    ensures
        digit_end(s, i) == n,
    decreases n - i,
{
    if i < n {
        lemma_digit_end_at(s, n, i + 1);
    }
}

/// Each direction digit is drawn by the numpad compass, and opposite
/// directions never look alike.
pub proof fn lemma_arrows_by_compass(d: Seq<char>)
    requires
        dir_run(d),
    ensures
        draws_numpad(d, arrows(d)),
        arrow('4') != arrow('6') && arrow('2') != arrow('8') && arrow('1') != arrow('9')
            && arrow('3') != arrow('7'),
{
    assert forall|i: int| 0 <= i < d.len() implies #[trigger] arrows(d)[i] == numpad_compass()[(
    d[i] as int) - ('1' as int)] by {
        assert(is_dir(d[i]));
    }
}

/// A hit that starts with direction digits starts with one piece of
/// directions, drawn digit by digit by the numpad compass ("214M" starts
/// with ↓↙←, "236M" with ↓↘→); what follows is read from where the digits
/// end. A hit of directions alone is just that piece.
pub proof fn lemma_hit_directions(d: Seq<char>, rest: Seq<char>)
    requires
        d.len() > 0,
        dir_run(d),
        rest.len() == 0 || !is_digit(rest[0]),
    ensures
        scan_atom(d + rest, 0)[0] matches PieceView::Directions(a) && draws_numpad(d, a),
        scan_atom(d + rest, 0) == seq![scan_atom(d + rest, 0)[0]] + scan_atom(d + rest, d.len() as int),
        rest.len() == 0 ==> atom_spec(d) == seq![PieceView::Directions(arrows(d))],
{
    let s = d + rest;
    assert forall|k: int| 0 <= k < d.len() implies is_digit(#[trigger] s[k]) by {
        assert(s[k] == d[k]);
        assert(is_dir(d[k]));
    }
    if rest.len() > 0 {
        assert(s[d.len() as int] == rest[0]);
    }
    lemma_digit_end_at(s, d.len() as int, 0);
    assert(is_digit(s[0]));
    assert(s.subrange(0, d.len() as int) =~= d);
    lemma_arrows_by_compass(d);
    if rest.len() == 0 {
        assert(s =~= d);
        assert(scan_atom(d, d.len() as int) =~= Seq::<PieceView>::empty());
    }
}

/// A held direction, "[4]" or "[236]", is drawn by the numpad compass too.
pub proof fn lemma_hold_directions(d: Seq<char>)
    requires
        d.len() > 0,
        dir_run(d),
    ensures
        bracket_piece(seq!['['] + d + seq![']'], 0, d.len() + 1int) matches PieceView::Hold(a)
            && draws_numpad(d, a),
{
    let s = seq!['['] + d + seq![']'];
    assert(s.subrange(1, d.len() + 1int) =~= d);
    lemma_arrows_by_compass(d);
}

} // verus!
