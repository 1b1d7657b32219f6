//! The simple reading of hand-written notation ("L, L, M, H, 2H", "236M",
//! "M+H"): each hit is some directions and one button, or text that could
//! not be read.
//!
//! What the user writes rules: nothing is corrected here, only recognised
//! where it can be, and the rest is shown as it is.
use vstd::prelude::*;
use crate::notation::{
    arrows, arrows_of, digit_end, dir_run, lemma_codes_upper, lemma_digit_end, style_of,
    draws_numpad, is_dir, lemma_arrows_by_compass, lemma_digit_end_at,
    style_upper, StyleView,
};
use crate::text::{
    char_split, char_views, chars_of, is_alpha, is_alpha_char, is_digit, is_digit_char, split_char,
    split_ws, string_of, string_of_all, upper_seq, ws_split,
};
pub use crate::notation::{button_style, ButtonStyle};

verus! {

/// The smallest unit: optional directions and a button, or loose text that
/// could not be read.
#[derive(Debug, Clone, PartialEq)]
pub struct Atom {
    /// Arrows already converted, e.g. "↓↘" for "23".
    pub directions: String,
    pub button: Option<ButtonStyle>,
    /// Text that does not fit the scheme; painted grey as it is.
    pub fallback: Option<String>,
}

/// An atom by its characters: arrows, button, text that did not fit.
pub type AtomView = (Seq<char>, Option<StyleView>, Option<Seq<char>>);

impl View for Atom {
    type V = AtomView;

    open spec fn view(&self) -> AtomView {
        (
            self.directions@,
            crate::notation::opt_style(self.button),
            match self.fallback {
                Some(s) => Some(s@),
                None => None,
            },
        )
    }
}

/// Atoms joined by "+" (pressed together).
#[derive(Debug, Clone, PartialEq)]
pub struct Alternative {
    pub atoms: Vec<Atom>,
}

impl View for Alternative {
    type V = Seq<AtomView>;

    open spec fn view(&self) -> Seq<AtomView> {
        self.atoms@.map_values(|a: Atom| a@)
    }
}

/// Alternatives split by "/" (one or the other).
#[derive(Debug, Clone, PartialEq)]
pub struct Group {
    pub alternatives: Vec<Alternative>,
}

impl View for Group {
    type V = Seq<Seq<AtomView>>;

    open spec fn view(&self) -> Seq<Seq<AtomView>> {
        self.alternatives@.map_values(|a: Alternative| a@)
    }
}

/// The separators people use between hits: comma, hyphen, arrow, greater
/// than; each reads as a space.
pub open spec fn unseparated(s: Seq<char>) -> Seq<char> {
    s.map_values(|c: char| if c == ',' || c == '-' || c == '>' || c == '→' { ' ' } else { c })
}

/// Everything that does not fit is shown grey, untouched.
pub open spec fn plain_spec(sub: Seq<char>) -> AtomView {
    (seq![], None, Some(sub))
}

pub open spec fn all_alpha(s: Seq<char>) -> bool {
    forall|k: int| 0 <= k < s.len() ==> is_alpha(#[trigger] s[k])
}

/// The atom of a hit: leading digits are directions (a 0 spoils them all),
/// and what follows is a button code in either case; a word that is not a
/// button is kept beside the directions, and any other mix stays text.
pub open spec fn atom_spec(sub: Seq<char>) -> AtomView {
    let d = digit_end(sub, 0);
    let digits = sub.subrange(0, d);
    let rest = sub.subrange(d, sub.len() as int);
    if sub.len() == 0 {
        plain_spec(sub)
    } else if !dir_run(digits) {
        plain_spec(sub)
    } else if rest.len() == 0 {
        (arrows(digits), None, None)
    } else if !all_alpha(rest) {
        plain_spec(sub)
    } else {
        match style_of(upper_seq(rest)) {
            Some(st) => (arrows(digits), Some(st), None),
            None => (arrows(digits), None, Some(rest)),
        }
    }
}

pub open spec fn alternative_spec(alt: Seq<char>) -> Seq<AtomView> {
    char_split(alt, '+').map_values(|a: Seq<char>| atom_spec(a))
}

pub open spec fn group_spec(token: Seq<char>) -> Seq<Seq<AtomView>> {
    char_split(token, '/').map_values(|alt: Seq<char>| alternative_spec(alt))
}

/// The groups of a whole notation: one per word once the separators are
/// spaces.
pub open spec fn parse_spec(raw: Seq<char>) -> Seq<Seq<Seq<AtomView>>> {
    ws_split(unseparated(raw)).map_values(|t: Seq<char>| group_spec(t))
}

fn plain(sub: &Vec<char>) -> (a: Atom)
    ensures
        a@ == plain_spec(sub@),
{
    Atom { directions: String::new(), button: None, fallback: Some(string_of_all(sub)) }
}

fn parse_atom(sub: &Vec<char>) -> (a: Atom)
    ensures
        a@ == atom_spec(sub@),
{
    if sub.len() == 0 {
        return plain(sub);
    }
    let n = sub.len();
    let mut d: usize = 0;
    while d < n && is_digit_char(sub[d])
        invariant
            d <= n == sub.len(),
            digit_end(sub@, 0) == digit_end(sub@, d as int),
        decreases n - d,
    {
        d = d + 1;
    }
    proof {
        lemma_digit_end(sub@, 0);
    }
    // Directions are 1-9; a 0 spoils the whole stretch.
    let arrows_str = match arrows_of(sub, 0, d) {
        Some(a) => a,
        None => {
            return plain(sub);
        },
    };
    if d == n {
        // Only directions, e.g. "236".
        return Atom { directions: arrows_str, button: None, fallback: None };
    }
    let mut k = d;
    while k < n
        invariant
            d <= k <= n == sub.len(),
            d < n,
            d == digit_end(sub@, 0),
            dir_run(sub@.subrange(0, d as int)),
            forall|j: int| d <= j < k ==> is_alpha(#[trigger] sub@[j]),
        decreases n - k,
    {
        if !is_alpha_char(sub[k]) {
            // An odd mix like "j.L" or "5[H]": shown whole, unread.
            assert(!all_alpha(sub@.subrange(d as int, n as int))) by {
                assert(sub@.subrange(d as int, n as int)[k - d] == sub@[k as int]);
            }
            return plain(sub);
        }
        k = k + 1;
    }
    let ghost rest = sub@.subrange(d as int, n as int);
    assert(all_alpha(rest)) by {
        assert forall|j: int| 0 <= j < rest.len() implies is_alpha(#[trigger] rest[j]) by {
            assert(rest[j] == sub@[j + d]);
        }
    }
    proof {
        lemma_codes_upper(upper_seq(rest));
    }
    let style = if n - d <= 2 {
        style_upper(sub, d, n - d)
    } else {
        None
    };
    match style {
        // Directions and a known button: the usual case.
        Some(st) => Atom { directions: arrows_str, button: Some(st), fallback: None },
        // A word that is not a button ("2Special"): both parts are kept.
        None => Atom {
            directions: arrows_str,
            button: None,
            fallback: Some(string_of(sub, d, n)),
        },
    }
}

fn parse_alternative(alt: &Vec<char>) -> (r: Alternative)
    ensures
        r@ == alternative_spec(alt@),
{
    let parts = split_char(alt, '+');
    let mut atoms: Vec<Atom> = Vec::new();
    let mut i: usize = 0;
    while i < parts.len()
        invariant
            0 <= i <= parts.len(),
            char_views(parts@) == char_split(alt@, '+'),
            atoms@.map_values(|a: Atom| a@) == char_views(parts@).subrange(0, i as int).map_values(
                |a: Seq<char>| atom_spec(a),
            ),
        decreases parts.len() - i,
    {
        assert(char_views(parts@)[i as int] == parts@[i as int]@);
        let ghost prev = atoms@.map_values(|a: Atom| a@);
        let a = parse_atom(&parts[i]);
        let ghost av = a@;
        atoms.push(a);
        assert(atoms@.map_values(|a: Atom| a@) =~= prev.push(av));
        assert(char_views(parts@).subrange(0, i + 1).map_values(|a: Seq<char>| atom_spec(a))
            =~= char_views(parts@).subrange(0, i as int).map_values(|a: Seq<char>| atom_spec(a)).push(
            atom_spec(char_views(parts@)[i as int]),
        ));
        i = i + 1;
    }
    assert(char_views(parts@).subrange(0, parts.len() as int) =~= char_views(parts@));
    Alternative { atoms }
}

fn parse_group(token: &Vec<char>) -> (g: Group)
    ensures
        g@ == group_spec(token@),
{
    let parts = split_char(token, '/');
    let mut alternatives: Vec<Alternative> = Vec::new();
    let mut i: usize = 0;
    while i < parts.len()
        invariant
            0 <= i <= parts.len(),
            char_views(parts@) == char_split(token@, '/'),
            alternatives@.map_values(|a: Alternative| a@) == char_views(parts@).subrange(
                0,
                i as int,
            ).map_values(|alt: Seq<char>| alternative_spec(alt)),
        decreases parts.len() - i,
    {
        assert(char_views(parts@)[i as int] == parts@[i as int]@);
        let ghost prev = alternatives@.map_values(|a: Alternative| a@);
        let a = parse_alternative(&parts[i]);
        let ghost av = a@;
        alternatives.push(a);
        assert(alternatives@.map_values(|a: Alternative| a@) =~= prev.push(av));
        assert(char_views(parts@).subrange(0, i + 1).map_values(|alt: Seq<char>| alternative_spec(alt))
            =~= char_views(parts@).subrange(0, i as int).map_values(
            |alt: Seq<char>| alternative_spec(alt),
        ).push(alternative_spec(char_views(parts@)[i as int])));
        i = i + 1;
    }
    assert(char_views(parts@).subrange(0, parts.len() as int) =~= char_views(parts@));
    Group { alternatives }
}

fn normalize_separators(v: &Vec<char>) -> (r: Vec<char>)
    ensures
        r@ == unseparated(v@),
{
    let mut r: Vec<char> = Vec::new();
    let mut i: usize = 0;
    while i < v.len()
        invariant
            0 <= i <= v.len(),
            r@ == unseparated(v@.subrange(0, i as int)),
        decreases v.len() - i,
    {
        let c = v[i];
        if c == ',' || c == '-' || c == '>' || c == '→' {
            r.push(' ');
        } else {
            r.push(c);
        }
        i = i + 1;
        assert(r@ =~= unseparated(v@.subrange(0, i as int)));
    }
    assert(v@.subrange(0, v.len() as int) =~= v@);
    r
}

/// Cuts the whole notation into paintable groups.
pub fn parse(raw: &str) -> (r: Vec<Group>)
    ensures
        r@.map_values(|g: Group| g@) == parse_spec(raw@),
{
    let chars = chars_of(raw);
    let spread = normalize_separators(&chars);
    let tokens = split_ws(&spread);
    let mut groups: Vec<Group> = Vec::new();
    let mut i: usize = 0;
    while i < tokens.len()
        invariant
            0 <= i <= tokens.len(),
            char_views(tokens@) == ws_split(unseparated(raw@)),
            groups@.map_values(|g: Group| g@) == char_views(tokens@).subrange(0, i as int).map_values(
                |t: Seq<char>| group_spec(t),
            ),
        decreases tokens.len() - i,
    {
        assert(char_views(tokens@)[i as int] == tokens@[i as int]@);
        let ghost prev = groups@.map_values(|g: Group| g@);
        let g = parse_group(&tokens[i]);
        let ghost gv = g@;
        groups.push(g);
        assert(groups@.map_values(|g: Group| g@) =~= prev.push(gv));
        assert(char_views(tokens@).subrange(0, i + 1).map_values(|t: Seq<char>| group_spec(t))
            =~= char_views(tokens@).subrange(0, i as int).map_values(|t: Seq<char>| group_spec(t)).push(
            group_spec(char_views(tokens@)[i as int]),
        ));
        i = i + 1;
    }
    assert(char_views(tokens@).subrange(0, tokens.len() as int) =~= char_views(tokens@));
    groups
}

/// A comma, a hyphen, ">", the long arrow and a space all read alike:
/// writing any of them for another changes nothing in the result.
pub open spec fn is_break(c: char) -> bool {
    c == ',' || c == '-' || c == '>' || c == '→' || c == ' '
}

/// Separators are interchangeable with each other and with a space.
pub proof fn lemma_separators_read_as_space(a: Seq<char>, b: Seq<char>)
    requires
        a.len() == b.len(),
        forall|k: int| 0 <= k < a.len() ==> #[trigger] a[k] == b[k] || (is_break(a[k]) && is_break(b[k])),
    ensures
        parse_spec(a) == parse_spec(b),
{
    assert(unseparated(a) =~= unseparated(b)) by {
        assert forall|k: int| 0 <= k < a.len() implies unseparated(a)[k] == unseparated(b)[k] by {
            assert(a[k] == b[k] || (is_break(a[k]) && is_break(b[k])));
        }
    }
}

/// A hit made of direction digits and then letters keeps its arrows,
/// drawn by the numpad compass, whatever the letters are; the letters are
/// the button when they name one, and are kept as text beside the arrows
/// when they do not ("2Special" is ↓ and "Special"), never the whole hit.
pub proof fn lemma_directions_then_letters(digits: Seq<char>, rest: Seq<char>)
    requires
        digits.len() > 0,
        dir_run(digits),
        all_alpha(rest),
    ensures
        draws_numpad(digits, atom_spec(digits + rest).0),
        atom_spec(digits + rest).1 == (if rest.len() > 0 {
            style_of(upper_seq(rest))
        } else {
            None
        }),
        atom_spec(digits + rest).2 == (if rest.len() > 0 && style_of(upper_seq(rest)) is None {
            Some(rest)
        } else {
            None
        }),
{
    let sub = digits + rest;
    assert forall|k: int| 0 <= k < digits.len() implies is_digit(#[trigger] sub[k]) by {
        assert(sub[k] == digits[k]);
        assert(is_dir(digits[k]));
    }
    if rest.len() > 0 {
        assert(sub[digits.len() as int] == rest[0]);
        assert(is_alpha(rest[0]));
    }
    lemma_digit_end_at(sub, digits.len() as int, 0);
    assert(sub.subrange(0, digits.len() as int) =~= digits);
    assert(sub.subrange(digits.len() as int, sub.len() as int) =~= rest);
    lemma_arrows_by_compass(digits);
}

} // verus!
