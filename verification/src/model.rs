//! Roster, categories, the team, links, and the types that are saved.
use vstd::prelude::*;
use crate::text::{
    all_ascii, append_str, char_is_whitespace, chars_of, contains_char, has_prefix, has_whitespace,
    has_ws, is_alpha, is_alpha_char, is_blank, lower_seq, lowercase, push_char, same_chars,
    starts_with, str_lowercase, string_of, string_of_all, to_upper_char, trim, trim_chars,
    trim_str, upper_char, decimal, decimal_string, lemma_trim_idempotent, lemma_trim_ascii,
    lemma_trim_noop, lemma_filter_all, is_ws, lower_char, lemma_trim_shape, upper_seq, ascii_upper, trim_start, trim_end, is_upper, digit_char,
};

verus! {

// ---------------------------------------------------------------------------
// Roster
// ---------------------------------------------------------------------------

/// A character of Tokon's base roster.
#[derive(Debug, Clone, Copy, PartialEq, Eq)]
pub struct Character {
    pub id: &'static str,
    pub name: &'static str,
    /// Two-letter monogram shown in the side bar.
    pub mono: &'static str,
}

/// A character by its characters: id, name, monogram.
pub type CharView = (Seq<char>, Seq<char>, Seq<char>);

impl View for Character {
    type V = CharView;

    open spec fn view(&self) -> CharView {
        (self.id@, self.name@, self.mono@)
    }
}

pub open spec fn roster_len() -> int {
    20
}

/// The 20 characters of the launch roster, in order.
pub open spec fn roster_row(k: int) -> CharView {
    if k == 0 {
        ("doom"@, "Doctor Doom"@, "DD"@)
    } else if k == 1 {
        ("cap"@, "Captain America"@, "CA"@)
    } else if k == 2 {
        ("magneto"@, "Magneto"@, "MG"@)
    } else if k == 3 {
        ("blade"@, "Blade"@, "BL"@)
    } else if k == 4 {
        ("blackpanther"@, "Black Panther"@, "BP"@)
    } else if k == 5 {
        ("carnage"@, "Carnage"@, "CN"@)
    } else if k == 6 {
        ("danger"@, "Danger"@, "DG"@)
    } else if k == 7 {
        ("deadpool"@, "Deadpool"@, "DP"@)
    } else if k == 8 {
        ("ghostrider"@, "Ghost Rider"@, "GR"@)
    } else if k == 9 {
        ("greengoblin"@, "Green Goblin"@, "GG"@)
    } else if k == 10 {
        ("hulk"@, "Hulk"@, "HK"@)
    } else if k == 11 {
        ("ironman"@, "Iron Man"@, "IM"@)
    } else if k == 12 {
        ("loki"@, "Loki"@, "LK"@)
    } else if k == 13 {
        ("magik"@, "Magik"@, "MK"@)
    } else if k == 14 {
        ("msmarvel"@, "Ms. Marvel"@, "MM"@)
    } else if k == 15 {
        ("peniparker"@, "Peni Parker"@, "PP"@)
    } else if k == 16 {
        ("spiderman"@, "Spider-Man"@, "SM"@)
    } else if k == 17 {
        ("starlord"@, "Star-Lord"@, "SL"@)
    } else if k == 18 {
        ("storm"@, "Storm"@, "ST"@)
    } else {
        ("wolverine"@, "Wolverine"@, "WV"@)
    }
}

fn character_at(k: usize) -> (c: Character)
    requires
        k < 20,
    ensures
        c@ == roster_row(k as int),
{
    if k == 0 {
        Character { id: "doom", name: "Doctor Doom", mono: "DD" }
    } else if k == 1 {
        Character { id: "cap", name: "Captain America", mono: "CA" }
    } else if k == 2 {
        Character { id: "magneto", name: "Magneto", mono: "MG" }
    } else if k == 3 {
        Character { id: "blade", name: "Blade", mono: "BL" }
    } else if k == 4 {
        Character { id: "blackpanther", name: "Black Panther", mono: "BP" }
    } else if k == 5 {
        Character { id: "carnage", name: "Carnage", mono: "CN" }
    } else if k == 6 {
        Character { id: "danger", name: "Danger", mono: "DG" }
    } else if k == 7 {
        Character { id: "deadpool", name: "Deadpool", mono: "DP" }
    } else if k == 8 {
        Character { id: "ghostrider", name: "Ghost Rider", mono: "GR" }
    } else if k == 9 {
        Character { id: "greengoblin", name: "Green Goblin", mono: "GG" }
    } else if k == 10 {
        Character { id: "hulk", name: "Hulk", mono: "HK" }
    } else if k == 11 {
        Character { id: "ironman", name: "Iron Man", mono: "IM" }
    } else if k == 12 {
        Character { id: "loki", name: "Loki", mono: "LK" }
    } else if k == 13 {
        Character { id: "magik", name: "Magik", mono: "MK" }
    } else if k == 14 {
        Character { id: "msmarvel", name: "Ms. Marvel", mono: "MM" }
    } else if k == 15 {
        Character { id: "peniparker", name: "Peni Parker", mono: "PP" }
    } else if k == 16 {
        Character { id: "spiderman", name: "Spider-Man", mono: "SM" }
    } else if k == 17 {
        Character { id: "starlord", name: "Star-Lord", mono: "SL" }
    } else if k == 18 {
        Character { id: "storm", name: "Storm", mono: "ST" }
    } else {
        Character { id: "wolverine", name: "Wolverine", mono: "WV" }
    }
}

/// The launch roster, in order.
pub fn characters() -> (v: Vec<Character>)
    ensures
        v@.len() == roster_len(),
        forall|k: int| 0 <= k < roster_len() ==> #[trigger] v@[k]@ == roster_row(k),
{
    let mut v: Vec<Character> = Vec::new();
    let mut k: usize = 0;
    while k < 20
        invariant
            k <= 20,
            v@.len() == k,
            forall|j: int| 0 <= j < k ==> #[trigger] v@[j]@ == roster_row(j),
        decreases 20 - k,
    {
        v.push(character_at(k));
        k = k + 1;
    }
    v
}

/// No two roster characters share an id or a monogram.
pub proof fn lemma_roster_distinct()
    ensures
        forall|i: int, j: int|
            0 <= i < j < roster_len() ==> (#[trigger] roster_row(i)).0 != (#[trigger] roster_row(j)).0
                && roster_row(i).2 != roster_row(j).2,
{
    reveal_strlit("doom");
    reveal_strlit("cap");
    reveal_strlit("magneto");
    reveal_strlit("blade");
    reveal_strlit("blackpanther");
    reveal_strlit("carnage");
    reveal_strlit("danger");
    reveal_strlit("deadpool");
    reveal_strlit("ghostrider");
    reveal_strlit("greengoblin");
    reveal_strlit("hulk");
    reveal_strlit("ironman");
    reveal_strlit("loki");
    reveal_strlit("magik");
    reveal_strlit("msmarvel");
    reveal_strlit("peniparker");
    reveal_strlit("spiderman");
    reveal_strlit("starlord");
    reveal_strlit("storm");
    reveal_strlit("wolverine");
    reveal_strlit("DD");
    reveal_strlit("CA");
    reveal_strlit("MG");
    reveal_strlit("BL");
    reveal_strlit("BP");
    reveal_strlit("CN");
    reveal_strlit("DG");
    reveal_strlit("DP");
    reveal_strlit("GR");
    reveal_strlit("GG");
    reveal_strlit("HK");
    reveal_strlit("IM");
    reveal_strlit("LK");
    reveal_strlit("MK");
    reveal_strlit("MM");
    reveal_strlit("PP");
    reveal_strlit("SM");
    reveal_strlit("SL");
    reveal_strlit("ST");
    reveal_strlit("WV");
    assert forall|i: int, j: int| 0 <= i < j < roster_len() implies (#[trigger] roster_row(i)).0
        != (#[trigger] roster_row(j)).0 && roster_row(i).2 != roster_row(j).2 by {
        let (a, b) = (roster_row(i), roster_row(j));
        assert(a.0.len() != b.0.len() || a.0[0] != b.0[0] || a.0[1] != b.0[1] || a.0[2] != b.0[2]
            || a.0[3] != b.0[3] || a.0[4] != b.0[4] || a.0[5] != b.0[5]);
        assert(a.2[0] != b.2[0] || a.2[1] != b.2[1]);
    }
}

/// Roster names have no spaces at either end, and no two of them are the
/// same in ASCII lower case.
pub proof fn lemma_roster_names()
    ensures
        forall|k: int| 0 <= k < roster_len() ==> (#[trigger] roster_row(k)).1.len() > 0
            && trim(roster_row(k).1) == roster_row(k).1,
        forall|i: int, j: int|
            0 <= i < j < roster_len() ==> lower_seq((#[trigger] roster_row(i)).1) != lower_seq(
                (#[trigger] roster_row(j)).1,
            ),
{
    reveal_strlit("Doctor Doom");
    reveal_strlit("Captain America");
    reveal_strlit("Magneto");
    reveal_strlit("Blade");
    reveal_strlit("Black Panther");
    reveal_strlit("Carnage");
    reveal_strlit("Danger");
    reveal_strlit("Deadpool");
    reveal_strlit("Ghost Rider");
    reveal_strlit("Green Goblin");
    reveal_strlit("Hulk");
    reveal_strlit("Iron Man");
    reveal_strlit("Loki");
    reveal_strlit("Magik");
    reveal_strlit("Ms. Marvel");
    reveal_strlit("Peni Parker");
    reveal_strlit("Spider-Man");
    reveal_strlit("Star-Lord");
    reveal_strlit("Storm");
    reveal_strlit("Wolverine");
    assert forall|k: int| 0 <= k < roster_len() implies (#[trigger] roster_row(k)).1.len() > 0
        && trim(roster_row(k).1) == roster_row(k).1 by {
        let n = roster_row(k).1;
        assert(!is_ws(n[0]) && !is_ws(n.last()));
        lemma_trim_noop(n);
    }
    assert forall|i: int, j: int| 0 <= i < j < roster_len() implies lower_seq(
        (#[trigger] roster_row(i)).1,
    ) != lower_seq((#[trigger] roster_row(j)).1) by {
        let (a, b) = (roster_row(i).1, roster_row(j).1);
        assert(a.len() != b.len() || lower_char(a[0]) != lower_char(b[0]));
        assert(lower_seq(a).len() == a.len() && lower_seq(b).len() == b.len());
        if a.len() == b.len() {
            assert(lower_seq(a)[0] == lower_char(a[0]));
            assert(lower_seq(b)[0] == lower_char(b[0]));
            assert(lower_seq(a)[0] != lower_seq(b)[0]);
        }
    }
}

/// Where the search by lower-cased name stops when the `j`-th name is the
/// first to match.
pub proof fn lemma_find_name_at(needle: Seq<char>, j: int, m: int)
    requires
        0 <= m <= j < roster_len(),
        str_lowercase(roster_row(j).1) == needle,
        forall|k: int| m <= k < j ==> str_lowercase(#[trigger] roster_row(k).1) != needle,
    ensures
        find_name(needle, m) == j,
    decreases j - m,
{
    if m < j {
        lemma_find_name_at(needle, j, m + 1);
    }
}

/// A search by lower-cased name that no name matches finds nothing.
pub proof fn lemma_find_name_none(needle: Seq<char>, m: int)
    requires
        0 <= m <= roster_len(),
        forall|k: int| m <= k < roster_len() ==> str_lowercase(#[trigger] roster_row(k).1) != needle,
    ensures
        find_name(needle, m) == roster_len(),
    decreases roster_len() - m,
{
    if m < roster_len() {
        lemma_find_name_none(needle, m + 1);
    }
}

/// A roster character's name, as written (so as `character_name` gives
/// it), finds that character, given std's lower case of the roster names.
pub proof fn lemma_name_finds_character(k: int)
    requires
        0 <= k < roster_len(),
        forall|j: int|
            0 <= j < roster_len() ==> #[trigger] str_lowercase(roster_row(j).1) == lower_seq(
                roster_row(j).1,
            ),
    ensures
        by_name(roster_row(k).1) == Some(roster_row(k)),
        by_name(roster_row(k).1) == by_id(roster_row(k).0),
{
    lemma_roster_names();
    lemma_roster_distinct();
    let name = roster_row(k).1;
    assert forall|j: int| 0 <= j < k implies str_lowercase(#[trigger] roster_row(j).1) != lower_seq(
        name,
    ) by {
        assert(str_lowercase(roster_row(j).1) == lower_seq(roster_row(j).1));
    }
    assert(str_lowercase(name) == lower_seq(name));
    lemma_find_name_at(lower_seq(name), k, 0);
    lemma_find_id_at(roster_row(k).0, k, 0);
}

proof fn lemma_find_id_at(id: Seq<char>, k: int, m: int)
    requires
        0 <= m <= k < roster_len(),
        roster_row(k).0 == id,
        forall|i: int, j: int|
            0 <= i < j < roster_len() ==> (#[trigger] roster_row(i)).0 != (#[trigger] roster_row(j)).0
                && roster_row(i).2 != roster_row(j).2,
    ensures
        find_id(id, m) == k,
    decreases k - m,
{
    if m < k {
        assert(roster_row(m).0 != roster_row(k).0);
        lemma_find_id_at(id, k, m + 1);
    }
}

/// What std's lower case gives for the roster names, as written and in
/// upper case: their ASCII lower case.
pub open spec fn roster_names_lowercase() -> bool {
    forall|k: int|
        0 <= k < roster_len() ==> str_lowercase((#[trigger] roster_row(k)).1) == lower_seq(
            roster_row(k).1,
        ) && str_lowercase(upper_seq(roster_row(k).1)) == lower_seq(roster_row(k).1)
}

/// Asks std for the lower case of every roster name, as written and in
/// upper case, which is how the facts of `roster_names_lowercase` are
/// learnt.
pub fn roster_names_lowercase_hold()
    ensures
        roster_names_lowercase(),
{
    let roster = characters();
    let mut k: usize = 0;
    while k < 20
        invariant
            0 <= k <= 20,
            roster@.len() == roster_len(),
            forall|j: int| 0 <= j < roster_len() ==> #[trigger] roster@[j]@ == roster_row(j),
            forall|j: int|
                0 <= j < k ==> str_lowercase((#[trigger] roster_row(j)).1) == lower_seq(
                    roster_row(j).1,
                ) && str_lowercase(upper_seq(roster_row(j).1)) == lower_seq(roster_row(j).1),
        decreases 20 - k,
    {
        let name = roster[k].name;
        assert(roster@[k as int]@ == roster_row(k as int));
        proof {
            reveal_strlit("Doctor Doom");
            reveal_strlit("Captain America");
            reveal_strlit("Magneto");
            reveal_strlit("Blade");
            reveal_strlit("Black Panther");
            reveal_strlit("Carnage");
            reveal_strlit("Danger");
            reveal_strlit("Deadpool");
            reveal_strlit("Ghost Rider");
            reveal_strlit("Green Goblin");
            reveal_strlit("Hulk");
            reveal_strlit("Iron Man");
            reveal_strlit("Loki");
            reveal_strlit("Magik");
            reveal_strlit("Ms. Marvel");
            reveal_strlit("Peni Parker");
            reveal_strlit("Spider-Man");
            reveal_strlit("Star-Lord");
            reveal_strlit("Storm");
            reveal_strlit("Wolverine");
        }
        let ghost n = name@;
        assert(all_ascii(n));
        let _ = lowercase(name);
        let up = ascii_upper(name);
        assert(all_ascii(up@)) by {
            assert forall|i: int| 0 <= i < up@.len() implies (#[trigger] up@[i] as u32) < 128 by {
                assert(up@[i] == upper_char(n[i]));
            }
        }
        let _ = lowercase(up.as_str());
        assert(lower_seq(upper_seq(n)) =~= lower_seq(n));
        assert(str_lowercase(roster_row(k as int).1) == lower_seq(roster_row(k as int).1));
        assert(str_lowercase(upper_seq(roster_row(k as int).1)) == lower_seq(roster_row(k as int).1));
        k = k + 1;
    }
}

/// A roster character's name in upper case finds that character: the
/// search by name ignores case.
pub proof fn lemma_upper_name_finds_character(k: int)
    requires
        0 <= k < roster_len(),
        roster_names_lowercase(),
    ensures
        by_name(upper_seq(roster_row(k).1)) == Some(roster_row(k)),
{
    lemma_roster_names();
    let name = roster_row(k).1;
    let up = upper_seq(name);
    assert(roster_row(k).1 == name);
    assert(str_lowercase(up) == lower_seq(name));
    assert(name.len() > 0 && trim(name) == name);
    lemma_trim_shape(name);
    assert(up[0] == upper_char(name[0]) && up.last() == upper_char(name.last()));
    lemma_trim_noop(up);
    assert forall|j: int| 0 <= j < k implies str_lowercase(#[trigger] roster_row(j).1) != lower_seq(
        name,
    ) by {
        assert(str_lowercase(roster_row(j).1) == lower_seq(roster_row(j).1));
    }
    lemma_find_name_at(lower_seq(name), k, 0);
}

/// What the search by id finds has that id.
pub proof fn lemma_find_id(id: Seq<char>, m: int)
    requires
        0 <= m <= roster_len(),
    ensures
        m <= find_id(id, m) <= roster_len(),
        find_id(id, m) < roster_len() ==> roster_row(find_id(id, m)).0 == id,
    decreases roster_len() - m,
{
    if m < roster_len() && roster_row(m).0 != id {
        lemma_find_id(id, m + 1);
    }
}

pub open spec fn opt_char(o: Option<Character>) -> Option<CharView> {
    match o {
        Some(c) => Some(c@),
        None => None,
    }
}

/// Position of the first roster character from the `k`-th on whose id is
/// `id`, or the roster length.
pub open spec fn find_id(id: Seq<char>, k: int) -> int
    decreases roster_len() - k,
{
    if k < 0 || k >= roster_len() {
        roster_len()
    } else if roster_row(k).0 == id {
        k
    } else {
        find_id(id, k + 1)
    }
}

/// The roster character with that id, if any.
pub open spec fn by_id(id: Seq<char>) -> Option<CharView> {
    if find_id(id, 0) < roster_len() {
        Some(roster_row(find_id(id, 0)))
    } else {
        None
    }
}

/// Position of the first roster character from the `k`-th on whose name,
/// lower-cased, is `needle`, or the roster length.
pub open spec fn find_name(needle: Seq<char>, k: int) -> int
    decreases roster_len() - k,
{
    if k < 0 || k >= roster_len() {
        roster_len()
    } else if str_lowercase(roster_row(k).1) == needle {
        k
    } else {
        find_name(needle, k + 1)
    }
}

/// The roster character whose name matches `name` ignoring case and the
/// spaces around it.
pub open spec fn by_name(name: Seq<char>) -> Option<CharView> {
    let needle = str_lowercase(trim(name));
    if find_name(needle, 0) < roster_len() {
        Some(roster_row(find_name(needle, 0)))
    } else {
        None
    }
}

pub fn character_by_id(id: &str) -> (r: Option<Character>)
    ensures
        opt_char(r) == by_id(id@),
{
    let v = chars_of(id);
    let mut k: usize = 0;
    while k < 20
        invariant
            k <= 20,
            v@ == id@,
            find_id(id@, 0) == find_id(id@, k as int),
        decreases 20 - k,
    {
        let c = character_at(k);
        let cv = chars_of(c.id);
        if same_chars(&cv, &v) {
            return Some(c);
        }
        k = k + 1;
    }
    None
}

/// Looks a character up by name, ignoring case and the spaces around it:
/// what the CSV import needs to forgive slips in the spreadsheet.
pub fn character_by_name(name: &str) -> (r: Option<Character>)
    ensures
        opt_char(r) == by_name(name@),
{
    let t = trim_str(name);
    let needle = lowercase(t.as_str());
    let mut k: usize = 0;
    while k < 20
        invariant
            k <= 20,
            needle@ == str_lowercase(trim(name@)),
            find_name(needle@, 0) == find_name(needle@, k as int),
        decreases 20 - k,
    {
        let c = character_at(k);
        let lower = lowercase(c.name);
        if lower == needle {
            return Some(c);
        }
        k = k + 1;
    }
    None
}

/// The name of the character with that id, or "" if there is none.
pub fn character_name(id: &str) -> (r: &'static str)
    ensures
        r@ == match by_id(id@) {
            Some(c) => c.1,
            None => ""@,
        },
{
    match character_by_id(id) {
        Some(c) => c.name,
        None => "",
    }
}

/// The default team the first time the app is opened, by id.
pub open spec fn default_team_id(k: int) -> Seq<char> {
    if k == 0 {
        "doom"@
    } else if k == 1 {
        "cap"@
    } else if k == 2 {
        "magneto"@
    } else {
        "blade"@
    }
}

pub open spec fn default_team_ids() -> Seq<Seq<char>> {
    seq![default_team_id(0), default_team_id(1), default_team_id(2), default_team_id(3)]
}

/// The default team, by id: "doom", "cap", "magneto", "blade".
pub fn default_team_ids_vec() -> (v: Vec<String>)
    ensures
        v@.map_values(|s: String| s@) == default_team_ids(),
{
    let mut v: Vec<String> = Vec::new();
    v.push("doom".to_string());
    v.push("cap".to_string());
    v.push("magneto".to_string());
    v.push("blade".to_string());
    assert(v@.map_values(|s: String| s@) =~= default_team_ids());
    v
}

pub open spec fn default_team_name() -> Seq<char> {
    "Mi equipo"@
}

/// The default team is made of roster characters: doom, cap, magneto and
/// blade are the first four of the roster.
pub proof fn lemma_default_team_in_roster()
    ensures
        forall|k: int| 0 <= k < 4 ==> #[trigger] by_id(default_team_ids()[k]) == Some(roster_row(k)),
{
    assert forall|k: int| 0 <= k < 4 implies #[trigger] by_id(default_team_ids()[k]) == Some(
        roster_row(k),
    ) by {
        assert(default_team_ids()[k] == roster_row(k).0);
        reveal_with_fuel(find_id, 4);
        reveal_strlit("doom");
        reveal_strlit("cap");
        reveal_strlit("magneto");
        reveal_strlit("blade");
    }
}

/// The default name of the team.
pub fn default_team_name_str() -> (r: &'static str)
    ensures
        r@ == default_team_name(),
{
    "Mi equipo"
}

// ---------------------------------------------------------------------------
// Categories
// ---------------------------------------------------------------------------

#[derive(Debug, Clone, Copy, PartialEq, Eq, Structural)]
pub enum Category {
    Bnb,
    Matchup,
    Nota,
}

pub open spec fn label_of(c: Category) -> Seq<char> {
    match c {
        Category::Bnb => "BnB"@,
        Category::Matchup => "Matchup"@,
        Category::Nota => "Nota"@,
    }
}

pub open spec fn slug_of(c: Category) -> Seq<char> {
    match c {
        Category::Bnb => "bnb"@,
        Category::Matchup => "matchup"@,
        Category::Nota => "nota"@,
    }
}

/// The category a spreadsheet cell names, lower-cased and trimmed; whatever
/// is not recognised falls into `Nota`.
pub open spec fn category_of_cell(raw: Seq<char>) -> Category {
    let key = str_lowercase(trim(raw));
    if key == "bnb"@ {
        Category::Bnb
    } else if key == "matchup"@ {
        Category::Matchup
    } else {
        Category::Nota
    }
}

/// `category_of_cell` for a cell of ASCII characters, where lower case is
/// the ASCII one.
pub open spec fn ascii_category(raw: Seq<char>) -> Category {
    let key = lower_seq(trim(raw));
    if key == "bnb"@ {
        Category::Bnb
    } else if key == "matchup"@ {
        Category::Matchup
    } else {
        Category::Nota
    }
}

/// A category's label and its slug are ASCII and name it again when read
/// back from a cell: what the export writes, the import understands.
pub proof fn lemma_label_names_category(c: Category)
    ensures
        all_ascii(label_of(c)),
        ascii_category(label_of(c)) == c,
        all_ascii(slug_of(c)),
        ascii_category(slug_of(c)) == c,
{
    reveal_strlit("BnB");
    reveal_strlit("Matchup");
    reveal_strlit("Nota");
    reveal_strlit("bnb");
    reveal_strlit("matchup");
    reveal_strlit("nota");
    lemma_trim_noop(label_of(c));
    lemma_trim_noop(slug_of(c));
    assert(lower_seq(label_of(c)) =~= slug_of(c));
    assert(lower_seq(slug_of(c)) =~= slug_of(c));
}

impl Category {
    /// The three categories, in the order the interface shows them.
    pub fn all() -> (v: Vec<Category>)
        ensures
            v@ == seq![Category::Bnb, Category::Matchup, Category::Nota],
    {
        let mut v: Vec<Category> = Vec::new();
        v.push(Category::Bnb);
        v.push(Category::Matchup);
        v.push(Category::Nota);
        assert(v@ =~= seq![Category::Bnb, Category::Matchup, Category::Nota]);
        v
    }

    pub fn label(&self) -> (r: &'static str)
        ensures
            r@ == label_of(*self),
    {
        match self {
            Category::Bnb => "BnB",
            Category::Matchup => "Matchup",
            Category::Nota => "Nota",
        }
    }

    pub fn slug(&self) -> (r: &'static str)
        ensures
            r@ == slug_of(*self),
    {
        match self {
            Category::Bnb => "bnb",
            Category::Matchup => "matchup",
            Category::Nota => "nota",
        }
    }

    /// Reads a category from a CSV cell. What is not recognised falls into
    /// `Nota`, so as not to lose the whole row over a slip.
    pub fn from_cell(raw: &str) -> (r: Category)
        ensures
            r == category_of_cell(raw@),
            all_ascii(raw@) ==> r == ascii_category(raw@),
    {
        let t = trim_str(raw);
        proof {
            if all_ascii(raw@) {
                lemma_trim_ascii(raw@);
            }
        }
        let key = lowercase(t.as_str());
        if key == "bnb".to_string() {
            Category::Bnb
        } else if key == "matchup".to_string() {
            Category::Matchup
        } else {
            Category::Nota
        }
    }
}

// ---------------------------------------------------------------------------
// Team
// ---------------------------------------------------------------------------

#[derive(Debug, Clone, PartialEq)]
pub struct TeamConfig {
    pub name: String,
    pub ids: Vec<String>,
}

/// A team by its characters: name and ids.
pub type TeamView = (Seq<char>, Seq<Seq<char>>);

pub open spec fn strings_view(v: Seq<String>) -> Seq<Seq<char>> {
    v.map_values(|s: String| s@)
}

impl View for TeamConfig {
    type V = TeamView;

    open spec fn view(&self) -> TeamView {
        (self.name@, strings_view(self.ids@))
    }
}

pub open spec fn in_roster(id: Seq<char>) -> bool {
    by_id(id) is Some
}

/// The team once cleaned: ids that are not in the roster are dropped, and a
/// blank name becomes the default one.
pub open spec fn sanitized_spec(t: TeamView) -> TeamView {
    (
        if is_blank(t.0) {
            default_team_name()
        } else {
            t.0
        },
        t.1.filter(|id: Seq<char>| in_roster(id)),
    )
}

/// Position of the first occurrence of `id` from the `k`-th on, or the
/// length.
pub open spec fn first_index(ids: Seq<Seq<char>>, id: Seq<char>, k: int) -> int
    decreases ids.len() - k,
{
    if k < 0 || k >= ids.len() {
        ids.len() as int
    } else if ids[k] == id {
        k
    } else {
        first_index(ids, id, k + 1)
    }
}

/// Toggling a member: out if it was in (its first occurrence), in at the end
/// if it was not.
pub open spec fn toggled(ids: Seq<Seq<char>>, id: Seq<char>) -> Seq<Seq<char>> {
    if ids.contains(id) {
        ids.remove(first_index(ids, id, 0))
    } else {
        ids.push(id)
    }
}

pub proof fn lemma_first_index(ids: Seq<Seq<char>>, id: Seq<char>, k: int)
    requires
        0 <= k <= ids.len(),
    ensures
        k <= first_index(ids, id, k) <= ids.len(),
        first_index(ids, id, k) < ids.len() ==> ids[first_index(ids, id, k)] == id,
        forall|j: int| k <= j < first_index(ids, id, k) ==> ids[j] != id,
    decreases ids.len() - k,
{
    if k < ids.len() && ids[k] != id {
        lemma_first_index(ids, id, k + 1);
    }
}

impl TeamConfig {
    /// The default team: "Mi equipo", with doom, cap, magneto and blade.
    pub fn default_team() -> (t: TeamConfig)
        ensures
            t@ == (default_team_name(), default_team_ids()),
    {
        TeamConfig { name: default_team_name_str().to_string(), ids: default_team_ids_vec() }
    }

    /// Drops ids that are not in the roster (an old save may carry a
    /// character that is gone), and gives a blank name the default one.
    pub fn sanitized(self) -> (t: TeamConfig)
        ensures
            t@ == sanitized_spec(self@),
    {
        let ghost all = strings_view(self.ids@);
        let mut kept: Vec<String> = Vec::new();
        let mut k: usize = 0;
        while k < self.ids.len()
            invariant
                0 <= k <= self.ids.len(),
                all == strings_view(self.ids@),
                strings_view(kept@) == all.subrange(0, k as int).filter(
                    |id: Seq<char>| in_roster(id),
                ),
            decreases self.ids.len() - k,
        {
            reveal_with_fuel(Seq::filter, 1);
            assert(all.subrange(0, k + 1).drop_last() =~= all.subrange(0, k as int));
            assert(all[k as int] == self.ids@[k as int]@);
            let ghost kb = strings_view(kept@);
            if character_by_id(self.ids[k].as_str()).is_some() {
                kept.push(self.ids[k].clone());
                assert(strings_view(kept@) =~= kb.push(all[k as int]));
            }
            k = k + 1;
        }
        assert(all.subrange(0, self.ids.len() as int) =~= all);
        let t = trim_str(self.name.as_str());
        let tv = chars_of(t.as_str());
        let name = if tv.len() == 0 {
            default_team_name_str().to_string()
        } else {
            self.name
        };
        TeamConfig { name, ids: kept }
    }

    pub fn contains(&self, id: &str) -> (r: bool)
        ensures
            r == self@.1.contains(id@),
    {
        let target = id.to_string();
        let mut k: usize = 0;
        while k < self.ids.len()
            invariant
                0 <= k <= self.ids.len(),
                target@ == id@,
                forall|j: int| 0 <= j < k ==> self@.1[j] != id@,
            decreases self.ids.len() - k,
        {
            if self.ids[k] == target {
                assert(self@.1[k as int] == id@);
                return true;
            }
            k = k + 1;
        }
        false
    }

    /// Takes the character out of the team if it is in, and adds it at the
    /// end if it is not.
    pub fn toggle(&mut self, id: &str)
        ensures
            final(self)@.0 == old(self)@.0,
            final(self)@.1 == toggled(old(self)@.1, id@),
    {
        let target = id.to_string();
        let ghost ids = self@.1;
        proof {
            lemma_first_index(ids, id@, 0);
        }
        let mut k: usize = 0;
        while k < self.ids.len()
            invariant
                0 <= k <= self.ids.len(),
                target@ == id@,
                ids == self@.1,
                ids == old(self)@.1,
                self@.0 == old(self)@.0,
                first_index(ids, id@, 0) == first_index(ids, id@, k as int),
            decreases self.ids.len() - k,
        {
            if self.ids[k] == target {
                assert(ids[k as int] == id@);
                assert(ids.contains(id@));
                self.ids.remove(k);
                assert(strings_view(self.ids@) =~= ids.remove(k as int));
                return ;
            }
            k = k + 1;
        }
        assert(!ids.contains(id@)) by {
            if ids.contains(id@) {
                let j = choose|j: int| 0 <= j < ids.len() && ids[j] == id@;
                lemma_first_index(ids, id@, 0);
            }
        }
        self.ids.push(target);
        assert(strings_view(self.ids@) =~= ids.push(id@));
    }
}

impl Default for TeamConfig {
    fn default() -> (t: TeamConfig)
        ensures
            t@ == (default_team_name(), default_team_ids()),
    {
        TeamConfig::default_team()
    }
}

/// Toggling a character that is not in the team, and toggling it again,
/// gives the team back as it was.
pub proof fn lemma_toggle_twice(ids: Seq<Seq<char>>, id: Seq<char>)
    requires
        !ids.contains(id),
    ensures
        toggled(toggled(ids, id), id) == ids,
{
    let t = ids.push(id);
    assert(t[ids.len() as int] == id);
    assert(t.contains(id));
    lemma_first_index(t, id, 0);
    let p = first_index(t, id, 0);
    if p < ids.len() {
        assert(ids[p] == id);
    }
    assert(p == ids.len());
    assert(t.remove(p) =~= ids);
}

/// A character that the team holds at most once is in the team after a
/// toggle exactly when it was not before; the other members keep their
/// order.
pub proof fn lemma_toggle_flips(ids: Seq<Seq<char>>, id: Seq<char>)
    requires
        forall|i: int, j: int|
            0 <= i < ids.len() && 0 <= j < ids.len() && #[trigger] ids[i] == id && #[trigger] ids[j]
                == id ==> i == j,
    ensures
        toggled(ids, id).contains(id) == !ids.contains(id),
        toggled(ids, id).filter(|x: Seq<char>| x != id) == ids.filter(|x: Seq<char>| x != id),
{
    let p = |x: Seq<char>| x != id;
    if ids.contains(id) {
        lemma_first_index(ids, id, 0);
        let k = first_index(ids, id, 0);
        let r = ids.remove(k);
        assert(ids[k] == id);
        if r.contains(id) {
            let j = choose|j: int| 0 <= j < r.len() && r[j] == id;
            if j < k {
                assert(r[j] == ids[j]);
            } else {
                assert(r[j] == ids[j + 1]);
            }
        }
        let (a, b) = (ids.subrange(0, k), ids.subrange(k + 1, ids.len() as int));
        assert(ids =~= a + seq![id] + b);
        assert(r =~= a + b);
        Seq::filter_distributes_over_add(a, seq![id], p);
        Seq::filter_distributes_over_add(a + seq![id], b, p);
        Seq::filter_distributes_over_add(a, b, p);
        // The removed occurrence is the one thing the filter drops anyway.
        reveal_with_fuel(Seq::filter, 2);
        assert(seq![id].filter(p) =~= Seq::<Seq<char>>::empty()) by {
            assert(seq![id].drop_last() =~= Seq::<Seq<char>>::empty());
        }
        assert(ids.filter(p) =~= r.filter(p));
    } else {
        let r = ids.push(id);
        assert(r[ids.len() as int] == id);
        reveal_with_fuel(Seq::filter, 1);
        assert(r.drop_last() =~= ids);
    }
}

/// Filtering twice by the same test is filtering once.
pub proof fn lemma_filter_twice<A>(s: Seq<A>, p: spec_fn(A) -> bool)
    ensures
        s.filter(p).filter(p) == s.filter(p),
{
    let f = s.filter(p);
    assert forall|k: int| 0 <= k < f.len() implies p(#[trigger] f[k]) by {
        s.lemma_filter_pred(p, k);
    }
    lemma_filter_all(f, p);
}

/// A cleaned team has a name that is not blank and only roster ids, and
/// cleaning it again changes nothing.
pub proof fn lemma_sanitized(t: TeamView)
    ensures
        !is_blank(sanitized_spec(t).0),
        forall|k: int|
            0 <= k < sanitized_spec(t).1.len() ==> in_roster(#[trigger] sanitized_spec(t).1[k]),
        sanitized_spec(sanitized_spec(t)) == sanitized_spec(t),
{
    reveal_strlit("Mi equipo");
    lemma_trim_noop(default_team_name());
    let keep = |id: Seq<char>| in_roster(id);
    let f = t.1.filter(keep);
    assert forall|k: int| 0 <= k < f.len() implies in_roster(#[trigger] f[k]) by {
        t.1.lemma_filter_pred(keep, k);
    }
    lemma_filter_twice(t.1, keep);
}

// ---------------------------------------------------------------------------
// Links
// ---------------------------------------------------------------------------

/// Whether the text starts with "http://" or "https://", ignoring case.
pub open spec fn has_web_scheme(t: Seq<char>) -> bool {
    starts_with(str_lowercase(t), "http://"@) || starts_with(str_lowercase(t), "https://"@)
}

/// The link with the scheme added when it is missing, so that a link pasted
/// by halves still opens; blank text gives an empty link.
pub open spec fn normalize_spec(raw: Seq<char>) -> Seq<char> {
    let t = trim(raw);
    if t.len() == 0 {
        seq![]
    } else if has_web_scheme(t) {
        t
    } else {
        "https://"@ + t
    }
}

/// Adds the scheme when it is missing, so that a link pasted by halves
/// still opens.
pub fn normalize_url(raw: &str) -> (r: String)
    ensures
        r@ == normalize_spec(raw@),
{
    let trimmed = trim_str(raw);
    let tv = chars_of(trimmed.as_str());
    if tv.len() == 0 {
        return String::new();
    }
    let lower = lowercase(trimmed.as_str());
    let lv = chars_of(lower.as_str());
    if has_prefix(&lv, "http://") || has_prefix(&lv, "https://") {
        trimmed
    } else {
        let mut r = "https://".to_string();
        append_str(&mut r, trimmed.as_str());
        r
    }
}

/// Where a link leads, to warn the user while typing.
#[derive(Debug, Clone, Copy, PartialEq, Eq, Structural)]
pub enum LinkKind {
    Vacio,
    X,
    YouTube,
    Otro,
    /// Does not look like a link: spaces, no domain, a domain with no dot...
    Invalido,
}

pub open spec fn mensaje_of(k: LinkKind) -> Seq<char> {
    match k {
        LinkKind::Vacio => ""@,
        LinkKind::X => "Enlace a X"@,
        LinkKind::YouTube => "Enlace a YouTube"@,
        LinkKind::Otro => "Enlace válido"@,
        LinkKind::Invalido => "Esto no parece un enlace"@,
    }
}

impl LinkKind {
    pub fn mensaje(&self) -> (r: &'static str)
        ensures
            r@ == mensaje_of(*self),
    {
        match self {
            LinkKind::Vacio => "",
            LinkKind::X => "Enlace a X",
            LinkKind::YouTube => "Enlace a YouTube",
            LinkKind::Otro => "Enlace válido",
            LinkKind::Invalido => "Esto no parece un enlace",
        }
    }

    pub fn es_problema(&self) -> (r: bool)
        ensures
            r == (*self == LinkKind::Invalido),
    {
        match self {
            LinkKind::Invalido => true,
            _ => false,
        }
    }
}

/// Whether a link may be opened in the system browser: only http and https,
/// ignoring case, so that a saved "file:" link cannot launch anything.
pub fn es_enlace_web(url: &str) -> (r: bool)
    ensures
        r == has_web_scheme(url@),
{
    let lower = lowercase(url);
    let lv = chars_of(lower.as_str());
    has_prefix(&lv, "http://") || has_prefix(&lv, "https://")
}

/// The desktop window's check before it hands a link to the system: only
/// http and https pass; anything else is refused with the reason.
pub fn comprobar_enlace_web(url: &str) -> (r: Result<(), String>)
    ensures
        r is Ok <==> has_web_scheme(url@),
        r matches Err(e) ==> e@ == "Solo se abren enlaces http o https"@,
{
    if es_enlace_web(url) {
        Ok(())
    } else {
        Err("Solo se abren enlaces http o https".to_string())
    }
}

/// First position at or after `k` where "://" starts, or the length.
pub open spec fn find_scheme_sep(u: Seq<char>, k: int) -> int
    decreases u.len() - k,
{
    if k < 0 || k + 3 > u.len() {
        u.len() as int
    } else if u[k] == ':' && u[k + 1] == '/' && u[k + 2] == '/' {
        k
    } else {
        find_scheme_sep(u, k + 1)
    }
}

/// What follows the first "://", or the whole text when there is none.
pub open spec fn after_scheme(u: Seq<char>) -> Seq<char> {
    let k = find_scheme_sep(u, 0);
    if k + 3 <= u.len() {
        u.subrange(k + 3, u.len() as int)
    } else {
        u
    }
}

pub open spec fn ends_host(c: char) -> bool {
    c == '/' || c == '?' || c == '#'
}

/// First position at or after `k` that ends the host part, or the length.
pub open spec fn host_end(u: Seq<char>, k: int) -> int
    decreases u.len() - k,
{
    if k < 0 || k >= u.len() {
        u.len() as int
    } else if ends_host(u[k]) {
        k
    } else {
        host_end(u, k + 1)
    }
}

/// Last position before `k` that holds `c`, or -1.
pub open spec fn last_index(s: Seq<char>, c: char, k: int) -> int
    decreases k,
{
    if k <= 0 || k > s.len() {
        -1
    } else if s[k - 1] == c {
        k - 1
    } else {
        last_index(s, c, k - 1)
    }
}

/// The domain of a normalised link, lower-cased and without "www.": what
/// lies after the scheme, before the path, after any "user@" and before any
/// ":port". `None` when that is empty.
/// The host of a link as written: after the scheme, before the path, the
/// query or the fragment, without the user part before "@" and the port.
pub open spec fn host_part(url: Seq<char>) -> Seq<char> {
    let rest = after_scheme(url);
    let h0 = rest.subrange(0, host_end(rest, 0));
    let h1 = h0.subrange(last_index(h0, '@', h0.len() as int) + 1, h0.len() as int);
    h1.subrange(0, crate::notation::find_from(h1, 0, ':'))
}

pub open spec fn domain_of(url: Seq<char>) -> Option<Seq<char>> {
    let h2 = host_part(url);
    if h2.len() == 0 {
        None
    } else {
        let l = str_lowercase(h2);
        Some(
            if starts_with(l, "www."@) {
                l.subrange("www."@.len() as int, l.len() as int)
            } else {
                l
            },
        )
    }
}

pub proof fn lemma_last_index(s: Seq<char>, c: char, k: int)
    requires
        0 <= k <= s.len(),
    ensures
        -1 <= last_index(s, c, k) < k,
        last_index(s, c, k) >= 0 ==> s[last_index(s, c, k)] == c,
        forall|j: int| last_index(s, c, k) < j < k ==> s[j] != c,
    decreases k,
{
    if k > 0 && s[k - 1] != c {
        lemma_last_index(s, c, k - 1);
    }
}

proof fn lemma_host_end(u: Seq<char>, k: int)
    requires
        0 <= k <= u.len(),
    ensures
        k <= host_end(u, k) <= u.len(),
    decreases u.len() - k,
{
    if k < u.len() && !ends_host(u[k]) {
        lemma_host_end(u, k + 1);
    }
}

proof fn lemma_find_scheme_sep(u: Seq<char>, k: int)
    requires
        0 <= k,
    ensures
        k <= find_scheme_sep(u, k) || find_scheme_sep(u, k) == u.len(),
        find_scheme_sep(u, k) <= u.len(),
    decreases u.len() - k,
{
    if k + 3 <= u.len() && !(u[k] == ':' && u[k + 1] == '/' && u[k + 2] == '/') {
        lemma_find_scheme_sep(u, k + 1);
    }
}

fn copy_range(v: &Vec<char>, lo: usize, hi: usize) -> (r: Vec<char>)
    requires
        lo <= hi <= v.len(),
    ensures
        r@ == v@.subrange(lo as int, hi as int),
{
    let mut r: Vec<char> = Vec::new();
    let mut i = lo;
    while i < hi
        invariant
            lo <= i <= hi <= v.len(),
            r@ == v@.subrange(lo as int, i as int),
        decreases hi - i,
    {
        r.push(v[i]);
        i = i + 1;
        assert(r@ =~= v@.subrange(lo as int, i as int));
    }
    r
}

/// Last position before `k` that holds `c`, or `None`.
fn last_index_of(v: &Vec<char>, c: char) -> (r: Option<usize>)
    ensures
        match r {
            Some(i) => i as int == last_index(v@, c, v@.len() as int),
            None => last_index(v@, c, v@.len() as int) == -1,
        },
{
    let mut k = v.len();
    while k > 0
        invariant
            k <= v.len(),
            last_index(v@, c, v@.len() as int) == last_index(v@, c, k as int),
        decreases k,
    {
        if v[k - 1] == c {
            return Some(k - 1);
        }
        k = k - 1;
    }
    None
}

/// The domain of a normalised link, lower-cased and without "www.".
fn dominio(url: &Vec<char>) -> (r: Option<String>)
    ensures
        match r {
            Some(h) => domain_of(url@) == Some(h@),
            None => domain_of(url@) is None,
        },
        all_ascii(url@) && host_part(url@).len() > 0 ==> str_lowercase(host_part(url@)) == lower_seq(
            host_part(url@),
        ),
{
    let n = url.len();
    let mut k: usize = 0;
    proof {
        lemma_find_scheme_sep(url@, 0);
    }
    while k < n && n - k >= 3 && !(url[k] == ':' && url[k + 1] == '/' && url[k + 2] == '/')
        invariant
            n == url.len(),
            k <= n,
            find_scheme_sep(url@, 0) == find_scheme_sep(url@, k as int),
        decreases n - k,
    {
        k = k + 1;
    }
    let rest = if k < n && n - k >= 3 {
        copy_range(url, k + 3, n)
    } else {
        copy_range(url, 0, n)
    };
    assert(url@.subrange(0, n as int) =~= url@);
    assert(rest@ == after_scheme(url@));
    let mut e: usize = 0;
    while e < rest.len() && !(rest[e] == '/' || rest[e] == '?' || rest[e] == '#')
        invariant
            e <= rest.len(),
            host_end(rest@, 0) == host_end(rest@, e as int),
        decreases rest.len() - e,
    {
        e = e + 1;
    }
    let h0 = copy_range(&rest, 0, e);
    proof {
        lemma_last_index(h0@, '@', h0@.len() as int);
    }
    let start = match last_index_of(&h0, '@') {
        Some(i) => i + 1,
        None => 0,
    };
    let h1 = copy_range(&h0, start, h0.len());
    let colon = crate::notation::find_char(&h1, 0, ':');
    proof {
        crate::notation::lemma_find_from(h1@, 0, ':');
    }
    let h2 = copy_range(&h1, 0, colon);
    if h2.len() == 0 {
        return None;
    }
    let hs = string_of_all(&h2);
    proof {
        if all_ascii(url@) {
            assert(all_ascii(rest@));
            assert(all_ascii(h0@));
            assert(all_ascii(h1@));
            assert(all_ascii(h2@));
        }
    }
    let lower = lowercase(hs.as_str());
    let lv = chars_of(lower.as_str());
    if has_prefix(&lv, "www.") {
        let www = chars_of("www.");
        Some(string_of(&lv, www.len(), lv.len()))
    } else {
        Some(lower)
    }
}

pub open spec fn all_alpha(s: Seq<char>) -> bool {
    forall|k: int| 0 <= k < s.len() ==> is_alpha(#[trigger] s[k])
}

pub open spec fn has_double_dot(s: Seq<char>) -> bool {
    exists|k: int| 0 <= k < s.len() - 1 && #[trigger] s[k] == '.' && s[k + 1] == '.'
}

pub open spec fn is_x_domain(h: Seq<char>) -> bool {
    ||| h == "x.com"@
    ||| h == "twitter.com"@
    ||| h == "mobile.twitter.com"@
    ||| h == "fxtwitter.com"@
    ||| h == "vxtwitter.com"@
    ||| h == "fixupx.com"@
    ||| h == "nitter.net"@
}

pub open spec fn is_youtube_domain(h: Seq<char>) -> bool {
    ||| h == "youtube.com"@
    ||| h == "youtu.be"@
    ||| h == "m.youtube.com"@
    ||| h == "music.youtube.com"@
    ||| h == "youtube-nocookie.com"@
}

/// The kind of a domain that already looks like one.
pub open spec fn host_kind(host: Seq<char>) -> LinkKind {
    let dot = last_index(host, '.', host.len() as int);
    if dot < 0 {
        LinkKind::Invalido
    } else {
        let tld = host.subrange(dot + 1, host.len() as int);
        if tld.len() < 2 || !all_alpha(tld) {
            LinkKind::Invalido
        } else if host[0] == '.' || has_double_dot(host) {
            LinkKind::Invalido
        } else if is_x_domain(host) {
            LinkKind::X
        } else if is_youtube_domain(host) {
            LinkKind::YouTube
        } else {
            LinkKind::Otro
        }
    }
}

/// What the user wrote in the link field: empty, a link to X or YouTube,
/// another link, or something that does not look like a link (a space in
/// the middle, a scheme other than http and https, no domain, a domain with
/// no dot or with an extension that is not two letters or more).
pub open spec fn classify(raw: Seq<char>) -> LinkKind {
    let t = trim(raw);
    if t.len() == 0 {
        LinkKind::Vacio
    } else if has_ws(t) {
        LinkKind::Invalido
    } else if !has_web_scheme(normalize_spec(t)) {
        LinkKind::Invalido
    } else {
        match domain_of(normalize_spec(t)) {
            None => LinkKind::Invalido,
            Some(host) => host_kind(host),
        }
    }
}

fn eq_lit(s: &String, lit: &str) -> (r: bool)
    ensures
        r == (s@ == lit@),
{
    *s == lit.to_string()
}

/// A host that is accepted (X, YouTube or another site) looks like a
/// domain: a dot followed by an extension of at least two letters, no dot
/// at the start and no two dots in a row.
pub proof fn lemma_accepted_host_shape(h: Seq<char>)
    requires
        host_kind(h) != LinkKind::Invalido,
    ensures
        exists|dot: int|
            0 <= dot < h.len() - 2 && #[trigger] h[dot] == '.' && forall|k: int|
                dot < k < h.len() ==> ('a' <= #[trigger] h[k] <= 'z' || 'A' <= h[k] <= 'Z'),
        h[0] != '.',
        forall|k: int| 0 <= k < h.len() - 1 ==> !(#[trigger] h[k] == '.' && h[k + 1] == '.'),
{
    lemma_last_index(h, '.', h.len() as int);
    let dot = last_index(h, '.', h.len() as int);
    let tld = h.subrange(dot + 1, h.len() as int);
    assert forall|k: int| dot < k < h.len() implies ('a' <= #[trigger] h[k] <= 'z' || 'A' <= h[k]
        <= 'Z') by {
        assert(tld[k - dot - 1] == h[k]);
        assert(is_alpha(tld[k - dot - 1]));
    }
    assert(h[dot] == '.');
}

/// The hosts of X and its mirrors, as people paste them.
pub open spec fn x_hosts() -> Seq<Seq<char>> {
    seq!["x.com"@, "twitter.com"@, "mobile.twitter.com"@, "fxtwitter.com"@, "vxtwitter.com"@, "fixupx.com"@, "nitter.net"@]
}

/// The hosts of YouTube, as people paste them.
pub open spec fn youtube_hosts() -> Seq<Seq<char>> {
    seq!["youtube.com"@, "youtu.be"@, "m.youtube.com"@, "music.youtube.com"@, "youtube-nocookie.com"@]
}

/// A host with a dot at `dot`, letters after it (at least two), no dot at
/// the start and no two dots in a row is a real domain: where it leads is
/// decided by the lists of X and YouTube.
proof fn lemma_plain_host(h: Seq<char>, dot: int)
    requires
        0 < dot < h.len() - 2,
        h[dot] == '.',
        forall|k: int| dot < k < h.len() ==> is_alpha(#[trigger] h[k]),
        h[0] != '.',
        forall|k: int| 0 <= k < h.len() - 1 ==> !(#[trigger] h[k] == '.' && h[k + 1] == '.'),
    ensures
        host_kind(h) == if is_x_domain(h) {
            LinkKind::X
        } else if is_youtube_domain(h) {
            LinkKind::YouTube
        } else {
            LinkKind::Otro
        },
{
    lemma_last_index(h, '.', h.len() as int);
    let li = last_index(h, '.', h.len() as int);
    if li != dot {
        if li < dot {
            assert(h[dot] != '.');
        } else {
            assert(is_alpha(h[li]));
        }
    }
    let tld = h.subrange(dot + 1, h.len() as int);
    assert(all_alpha(tld)) by {
        assert forall|k: int| 0 <= k < tld.len() implies is_alpha(#[trigger] tld[k]) by {
            assert(tld[k] == h[dot + 1 + k]);
        }
    }
    assert(!has_double_dot(h));
}

/// Every host of the X list is a link to X, and every host of the YouTube
/// list a link to YouTube.
pub proof fn lemma_known_hosts()
    ensures
        forall|i: int| 0 <= i < x_hosts().len() ==> host_kind(#[trigger] x_hosts()[i]) == LinkKind::X,
        forall|i: int|
            0 <= i < youtube_hosts().len() ==> host_kind(#[trigger] youtube_hosts()[i])
                == LinkKind::YouTube,
{
    reveal_strlit("x.com");
    lemma_plain_host("x.com"@, 1);
    reveal_strlit("twitter.com");
    lemma_plain_host("twitter.com"@, 7);
    reveal_strlit("mobile.twitter.com");
    lemma_plain_host("mobile.twitter.com"@, 14);
    reveal_strlit("fxtwitter.com");
    lemma_plain_host("fxtwitter.com"@, 9);
    reveal_strlit("vxtwitter.com");
    lemma_plain_host("vxtwitter.com"@, 9);
    reveal_strlit("fixupx.com");
    lemma_plain_host("fixupx.com"@, 6);
    reveal_strlit("nitter.net");
    lemma_plain_host("nitter.net"@, 6);
    reveal_strlit("youtube.com");
    lemma_plain_host("youtube.com"@, 7);
    reveal_strlit("youtu.be");
    lemma_plain_host("youtu.be"@, 5);
    reveal_strlit("m.youtube.com");
    lemma_plain_host("m.youtube.com"@, 9);
    reveal_strlit("music.youtube.com");
    lemma_plain_host("music.youtube.com"@, 13);
    reveal_strlit("youtube-nocookie.com");
    lemma_plain_host("youtube-nocookie.com"@, 16);
}

/// A host as it is written in a link: not empty, with no spaces, no
/// "www." in front, and none of the characters that end or split a host.
pub open spec fn clean_host(h: Seq<char>) -> bool {
    &&& h.len() > 0
    &&& forall|k: int|
        0 <= k < h.len() ==> !is_ws(#[trigger] h[k]) && !ends_host(h[k]) && h[k] != ':' && h[k]
            != '@'
    &&& !starts_with(h, "www."@)
}

proof fn lemma_host_end_at(u: Seq<char>, n: int, k: int)
    requires
        0 <= k <= n < u.len(),
        forall|j: int| 0 <= j < n ==> !ends_host(#[trigger] u[j]),
        ends_host(u[n]),
    ensures
        host_end(u, k) == n,
    decreases n - k,
{
    if k < n {
        lemma_host_end_at(u, n, k + 1);
    }
}

/// The host of "https://" + h + "/a" is h.
proof fn lemma_host_part_of(h: Seq<char>)
    requires
        clean_host(h),
    ensures
        host_part("https://"@ + h + "/a"@) == h,
{
    reveal_strlit("https://");
    reveal_strlit("/a");
    let url = "https://"@ + h + "/a"@;
    reveal_with_fuel(find_scheme_sep, 7);
    assert(url[5] == ':' && url[6] == '/' && url[7] == '/');
    assert(find_scheme_sep(url, 0) == 5);
    let rest = after_scheme(url);
    assert(rest =~= h + "/a"@);
    assert forall|j: int| 0 <= j < h.len() implies !ends_host(#[trigger] rest[j]) by {
        assert(rest[j] == h[j]);
    }
    assert(rest[h.len() as int] == '/');
    lemma_host_end_at(rest, h.len() as int, 0);
    let h0 = rest.subrange(0, h.len() as int);
    assert(h0 =~= h);
    lemma_last_index(h0, '@', h0.len() as int);
    assert(last_index(h0, '@', h0.len() as int) == -1);
    let h1 = h0.subrange(0, h0.len() as int);
    assert(h1 =~= h);
    crate::notation::lemma_find_from(h1, 0, ':');
    assert(crate::notation::find_from(h1, 0, ':') == h.len());
    assert(h1.subrange(0, h.len() as int) =~= h);
}

/// A link to a clean host, pasted with its scheme ("https://" + h + "/a")
/// or without it (h + "/a"), is classified by its host; given std's lower
/// case of the texts the classification lower-cases, when they are already
/// in lower case.
pub proof fn lemma_classify_by_host(h: Seq<char>)
    requires
        clean_host(h),
        h[0] != 'h',
        str_lowercase(h) == h,
        str_lowercase(h + "/a"@) == h + "/a"@,
        str_lowercase("https://"@ + h + "/a"@) == "https://"@ + h + "/a"@,
    ensures
        classify("https://"@ + h + "/a"@) == host_kind(h),
        classify(h + "/a"@) == host_kind(h),
{
    reveal_strlit("https://");
    reveal_strlit("http://");
    reveal_strlit("/a");
    reveal_strlit("www.");
    let url = "https://"@ + h + "/a"@;
    let bare = h + "/a"@;
    lemma_host_part_of(h);
    // Both texts are already trimmed and hold no space.
    assert(!is_ws(url[0]) && !is_ws(url.last()));
    lemma_trim_noop(url);
    assert(!is_ws(bare[0]) && !is_ws(bare.last()));
    lemma_trim_noop(bare);
    assert(!has_ws(url)) by {
        assert forall|i: int| 0 <= i < url.len() implies !is_ws(#[trigger] url[i]) by {
            if 8 <= i < 8 + h.len() {
                assert(url[i] == h[i - 8]);
            }
        }
    }
    assert(!has_ws(bare)) by {
        assert forall|i: int| 0 <= i < bare.len() implies !is_ws(#[trigger] bare[i]) by {
            if i < h.len() {
                assert(bare[i] == h[i]);
            }
        }
    }
    // With the scheme the link stays as it is; without it, the scheme is
    // put in front.
    assert(url.subrange(0, 8) =~= "https://"@);
    assert(has_web_scheme(url));
    assert(normalize_spec(url) == url);
    assert(bare[0] == h[0]);
    assert(!starts_with(bare, "http://"@)) by {
        if 7 <= bare.len() {
            assert(bare.subrange(0, 7)[0] == bare[0]);
        }
    }
    assert(!starts_with(bare, "https://"@)) by {
        if 8 <= bare.len() {
            assert(bare.subrange(0, 8)[0] == bare[0]);
        }
    }
    assert(!has_web_scheme(bare));
    assert(normalize_spec(bare) =~= url);
    assert(domain_of(url) == Some(h));
}

/// ASCII text with no upper-case letter: its lower case is itself.
pub open spec fn lower_ascii(s: Seq<char>) -> bool {
    forall|k: int| 0 <= k < s.len() ==> (#[trigger] s[k] as u32) < 128 && !is_upper(s[k])
}

proof fn lemma_lower_ascii(s: Seq<char>)
    requires
        lower_ascii(s),
    ensures
        all_ascii(s),
        lower_seq(s) == s,
{
    assert(lower_seq(s) =~= s);
}

/// A host made of lower-case letters, dots and hyphens, that does not
/// start with "w", is clean and in lower case.
proof fn lemma_simple_host(h: Seq<char>)
    requires
        h.len() > 0,
        h[0] != 'w',
        forall|k: int|
            0 <= k < h.len() ==> ('a' <= #[trigger] h[k] <= 'z') || h[k] == '.' || h[k] == '-',
    ensures
        clean_host(h),
        lower_ascii(h),
{
    reveal_strlit("www.");
    if h.len() >= 4 {
        assert(h.subrange(0, 4)[0] == h[0]);
    }
}

/// Learns, by asking std, the lower case of the texts a link to `h`
/// classifies by, and so how such a link classifies.
fn learn_link_to(h: &str)
    requires
        clean_host(h@),
        h@[0] != 'h',
        lower_ascii(h@),
    ensures
        classify("https://"@ + h@ + "/a"@) == host_kind(h@),
        classify(h@ + "/a"@) == host_kind(h@),
{
    let mut bare = h.to_string();
    append_str(&mut bare, "/a");
    let mut url = "https://".to_string();
    append_str(&mut url, bare.as_str());
    proof {
        reveal_strlit("https://");
        reveal_strlit("/a");
        assert(lower_ascii(bare@)) by {
            assert forall|k: int| 0 <= k < bare@.len() implies (#[trigger] bare@[k] as u32) < 128
                && !is_upper(bare@[k]) by {
                if k < h@.len() {
                    assert(bare@[k] == h@[k]);
                }
            }
        }
        assert(lower_ascii(url@)) by {
            assert forall|k: int| 0 <= k < url@.len() implies (#[trigger] url@[k] as u32) < 128
                && !is_upper(url@[k]) by {
                if k >= 8 {
                    assert(url@[k] == bare@[k - 8]);
                }
            }
        }
        lemma_lower_ascii(h@);
        lemma_lower_ascii(bare@);
        lemma_lower_ascii(url@);
    }
    let _ = lowercase(h);
    let _ = lowercase(bare.as_str());
    let _ = lowercase(url.as_str());
    proof {
        assert(url@ == "https://"@ + h@ + "/a"@);
        lemma_classify_by_host(h@);
    }
}

#[verifier::spinoff_prover]
#[verifier::rlimit(60)]
fn learn_x_links()
    ensures
        forall|i: int|
            0 <= i < x_hosts().len() ==> classify("https://"@ + #[trigger] x_hosts()[i] + "/a"@)
                == LinkKind::X && classify(x_hosts()[i] + "/a"@) == LinkKind::X,
{
    assert(clean_host("x.com"@) && "x.com"@[0] != 'h' && lower_ascii("x.com"@)) by {
        reveal_strlit("x.com");
        lemma_simple_host("x.com"@);
    }
    learn_link_to("x.com");
    assert(clean_host("twitter.com"@) && "twitter.com"@[0] != 'h' && lower_ascii("twitter.com"@)) by {
        reveal_strlit("twitter.com");
        lemma_simple_host("twitter.com"@);
    }
    learn_link_to("twitter.com");
    assert(clean_host("mobile.twitter.com"@) && "mobile.twitter.com"@[0] != 'h' && lower_ascii("mobile.twitter.com"@)) by {
        reveal_strlit("mobile.twitter.com");
        lemma_simple_host("mobile.twitter.com"@);
    }
    learn_link_to("mobile.twitter.com");
    assert(clean_host("fxtwitter.com"@) && "fxtwitter.com"@[0] != 'h' && lower_ascii("fxtwitter.com"@)) by {
        reveal_strlit("fxtwitter.com");
        lemma_simple_host("fxtwitter.com"@);
    }
    learn_link_to("fxtwitter.com");
    assert(clean_host("vxtwitter.com"@) && "vxtwitter.com"@[0] != 'h' && lower_ascii("vxtwitter.com"@)) by {
        reveal_strlit("vxtwitter.com");
        lemma_simple_host("vxtwitter.com"@);
    }
    learn_link_to("vxtwitter.com");
    assert(clean_host("fixupx.com"@) && "fixupx.com"@[0] != 'h' && lower_ascii("fixupx.com"@)) by {
        reveal_strlit("fixupx.com");
        lemma_simple_host("fixupx.com"@);
    }
    learn_link_to("fixupx.com");
    assert(clean_host("nitter.net"@) && "nitter.net"@[0] != 'h' && lower_ascii("nitter.net"@)) by {
        reveal_strlit("nitter.net");
        lemma_simple_host("nitter.net"@);
    }
    learn_link_to("nitter.net");
    proof {
        lemma_known_hosts();
    }
}

#[verifier::spinoff_prover]
#[verifier::rlimit(60)]
fn learn_youtube_links()
    ensures
        forall|i: int|
            0 <= i < youtube_hosts().len() ==> classify(
                "https://"@ + #[trigger] youtube_hosts()[i] + "/a"@,
            ) == LinkKind::YouTube && classify(youtube_hosts()[i] + "/a"@) == LinkKind::YouTube,
{
    assert(clean_host("youtube.com"@) && "youtube.com"@[0] != 'h' && lower_ascii("youtube.com"@)) by {
        reveal_strlit("youtube.com");
        lemma_simple_host("youtube.com"@);
    }
    learn_link_to("youtube.com");
    assert(clean_host("youtu.be"@) && "youtu.be"@[0] != 'h' && lower_ascii("youtu.be"@)) by {
        reveal_strlit("youtu.be");
        lemma_simple_host("youtu.be"@);
    }
    learn_link_to("youtu.be");
    assert(clean_host("m.youtube.com"@) && "m.youtube.com"@[0] != 'h' && lower_ascii("m.youtube.com"@)) by {
        reveal_strlit("m.youtube.com");
        lemma_simple_host("m.youtube.com"@);
    }
    learn_link_to("m.youtube.com");
    assert(clean_host("music.youtube.com"@) && "music.youtube.com"@[0] != 'h' && lower_ascii("music.youtube.com"@)) by {
        reveal_strlit("music.youtube.com");
        lemma_simple_host("music.youtube.com"@);
    }
    learn_link_to("music.youtube.com");
    assert(clean_host("youtube-nocookie.com"@) && "youtube-nocookie.com"@[0] != 'h' && lower_ascii("youtube-nocookie.com"@)) by {
        reveal_strlit("youtube-nocookie.com");
        lemma_simple_host("youtube-nocookie.com"@);
    }
    learn_link_to("youtube-nocookie.com");
    proof {
        lemma_known_hosts();
    }
}

/// Every link to a host of the X list, pasted with "https://" or without
/// it, classifies as X, and every link to a host of the YouTube list as
/// YouTube; learns what that needs by asking std.
pub fn known_links_classify()
    ensures
        forall|i: int|
            0 <= i < x_hosts().len() ==> classify("https://"@ + #[trigger] x_hosts()[i] + "/a"@)
                == LinkKind::X && classify(x_hosts()[i] + "/a"@) == LinkKind::X,
        forall|i: int|
            0 <= i < youtube_hosts().len() ==> classify(
                "https://"@ + #[trigger] youtube_hosts()[i] + "/a"@,
            ) == LinkKind::YouTube && classify(youtube_hosts()[i] + "/a"@) == LinkKind::YouTube,
{
    learn_x_links();
    learn_youtube_links();
}

fn host_kind_of(host: &String) -> (k: LinkKind)
    ensures
        k == host_kind(host@),
{
    let hv = chars_of(host.as_str());
    let dot = match last_index_of(&hv, '.') {
        Some(d) => d,
        None => {
            return LinkKind::Invalido;
        },
    };
    proof {
        lemma_last_index(hv@, '.', hv@.len() as int);
    }
    assert(dot < hv.len());
    let tld = copy_range(&hv, dot + 1, hv.len());
    let mut alpha = true;
    let mut k: usize = 0;
    while k < tld.len()
        invariant
            k <= tld.len(),
            alpha == forall|j: int| 0 <= j < k ==> is_alpha(#[trigger] tld@[j]),
        decreases tld.len() - k,
    {
        if !is_alpha_char(tld[k]) {
            alpha = false;
        }
        k = k + 1;
    }
    if tld.len() < 2 || !alpha {
        return LinkKind::Invalido;
    }
    let mut double = false;
    let mut j: usize = 0;
    while j < hv.len() && hv.len() - j > 1
        invariant
            j <= hv.len(),
            hv.len() > 0 ==> j <= hv.len() - 1,
            double == exists|i: int| 0 <= i < j && #[trigger] hv@[i] == '.' && hv@[i + 1] == '.',
        decreases hv.len() - j,
    {
        if hv[j] == '.' && hv[j + 1] == '.' {
            double = true;
        }
        j = j + 1;
    }
    assert(double == has_double_dot(hv@)) by {
        if has_double_dot(hv@) {
            let i = choose|i: int| 0 <= i < hv@.len() - 1 && #[trigger] hv@[i] == '.' && hv@[i + 1]
                == '.';
            assert(i < j);
        }
    }
    if hv[0] == '.' || double {
        return LinkKind::Invalido;
    }
    if eq_lit(host, "x.com") || eq_lit(host, "twitter.com") || eq_lit(host, "mobile.twitter.com")
        || eq_lit(host, "fxtwitter.com") || eq_lit(host, "vxtwitter.com") || eq_lit(
        host,
        "fixupx.com",
    ) || eq_lit(host, "nitter.net") {
        LinkKind::X
    } else if eq_lit(host, "youtube.com") || eq_lit(host, "youtu.be") || eq_lit(
        host,
        "m.youtube.com",
    ) || eq_lit(host, "music.youtube.com") || eq_lit(host, "youtube-nocookie.com") {
        LinkKind::YouTube
    } else {
        LinkKind::Otro
    }
}

/// What the link field says: empty exactly when the text is blank, and a
/// link that is accepted (X, YouTube or another site) is, once normalised as
/// the form saves it, one that may be opened in the browser.
pub proof fn lemma_link_kinds(raw: Seq<char>)
    ensures
        (classify(raw) == LinkKind::Vacio) == is_blank(raw),
        classify(raw) != LinkKind::Vacio && classify(raw) != LinkKind::Invalido ==> has_web_scheme(
            normalize_spec(raw),
        ),
{
    lemma_trim_idempotent(raw);
    let t = trim(raw);
    assert(normalize_spec(t) == normalize_spec(raw));
}

/// Normalising a link twice is normalising it once, and a link classifies
/// the same before and after it is normalised (as the form saves it);
/// whenever std's lower case of the link with "https://" put in front still
/// begins with "https://" (as it does for every link written in ASCII).
pub proof fn lemma_normalize_stable(raw: Seq<char>)
    requires
        starts_with(str_lowercase("https://"@ + trim(raw)), "https://"@),
    ensures
        normalize_spec(normalize_spec(raw)) == normalize_spec(raw),
        classify(normalize_spec(raw)) == classify(raw),
{
    reveal_strlit("https://");
    let t = trim(raw);
    let n = normalize_spec(raw);
    lemma_trim_shape(raw);
    lemma_trim_idempotent(raw);
    if t.len() == 0 {
        assert(n =~= Seq::<char>::empty());
        assert(trim(n) =~= Seq::<char>::empty());
    } else if has_web_scheme(t) {
        assert(n == t);
    } else {
        let h = "https://"@;
        assert(n == h + t);
        assert(n[0] == 'h');
        assert(n.last() == t.last());
        lemma_trim_noop(n);
        assert(trim(n) == n);
        assert(has_web_scheme(n));
        assert(normalize_spec(n) == n);
        if has_ws(t) {
            let i = choose|i: int| 0 <= i < t.len() && is_ws(t[i]);
            assert(n[h.len() + i] == t[i]);
            assert(has_ws(n));
        } else {
            assert forall|i: int| 0 <= i < n.len() implies !is_ws(#[trigger] n[i]) by {
                if i >= h.len() {
                    assert(n[i] == t[i - h.len()]);
                }
            }
            assert(!has_ws(n));
        }
    }
}

/// Whether normalising the link a second time leaves it as it is, and the
/// normalised link classifies as the link typed: asks std for the lower case
/// of the link with "https://" put in front. Always so for a link written
/// in ASCII.
pub fn normalization_is_stable(raw: &str) -> (r: bool)
    ensures
        r ==> normalize_spec(normalize_spec(raw@)) == normalize_spec(raw@) && classify(
            normalize_spec(raw@),
        ) == classify(raw@),
        all_ascii(raw@) ==> r,
{
    let t = trim_str(raw);
    let mut p = "https://".to_string();
    append_str(&mut p, t.as_str());
    proof {
        reveal_strlit("https://");
        if all_ascii(raw@) {
            lemma_trim_ascii(raw@);
            assert(all_ascii(p@)) by {
                assert forall|i: int| 0 <= i < p@.len() implies (#[trigger] p@[i] as u32) < 128 by {
                    if i >= 8 {
                        assert(p@[i] == t@[i - 8]);
                    }
                }
            }
        }
    }
    let l = lowercase(p.as_str());
    let lv = chars_of(l.as_str());
    let ok = has_prefix(&lv, "https://");
    proof {
        if all_ascii(raw@) {
            assert(lv@.subrange(0, 8) =~= "https://"@) by {
                assert forall|i: int| 0 <= i < 8 implies lv@[i] == "https://"@[i] by {
                    assert(lv@[i] == lower_char(p@[i]));
                    assert(p@[i] == "https://"@[i]);
                }
            }
        }
        if ok {
            lemma_normalize_stable(raw@);
        }
    }
    ok
}

/// Two texts that are the same but for the case of ASCII letters.
pub open spec fn same_but_case(a: Seq<char>, b: Seq<char>) -> bool {
    lower_seq(a) == lower_seq(b)
}

/// Characters that are not ASCII letters sit at the same places in two
/// texts that differ only in case.
proof fn lemma_caseless_char(a: Seq<char>, b: Seq<char>, i: int, c: char)
    requires
        same_but_case(a, b),
        0 <= i < a.len(),
        !is_alpha(c),
    ensures
        a.len() == b.len(),
        (a[i] == c) == (b[i] == c),
{
    assert(lower_seq(a).len() == a.len() && lower_seq(b).len() == b.len());
    assert(lower_seq(a)[i] == lower_char(a[i]) && lower_seq(b)[i] == lower_char(b[i]));
}

proof fn lemma_caseless_subrange(a: Seq<char>, b: Seq<char>, i: int, j: int)
    requires
        same_but_case(a, b),
        0 <= i <= j <= a.len(),
    ensures
        same_but_case(a.subrange(i, j), b.subrange(i, j)),
{
    assert(lower_seq(a).len() == a.len() && lower_seq(b).len() == b.len());
    assert forall|k: int| 0 <= k < j - i implies lower_seq(a.subrange(i, j))[k] == lower_seq(
        b.subrange(i, j),
    )[k] by {
        assert(lower_seq(a)[i + k] == lower_seq(b)[i + k]);
    }
    assert(lower_seq(a.subrange(i, j)) =~= lower_seq(b.subrange(i, j)));
}

proof fn lemma_caseless_scheme(a: Seq<char>, b: Seq<char>, k: int)
    requires
        same_but_case(a, b),
        0 <= k,
    ensures
        find_scheme_sep(a, k) == find_scheme_sep(b, k),
    decreases a.len() - k,
{
    assert(lower_seq(a).len() == a.len() && lower_seq(b).len() == b.len());
    if k + 3 <= a.len() {
        lemma_caseless_char(a, b, k, ':');
        lemma_caseless_char(a, b, k + 1, '/');
        lemma_caseless_char(a, b, k + 2, '/');
        lemma_caseless_scheme(a, b, k + 1);
    }
}

proof fn lemma_caseless_host_end(a: Seq<char>, b: Seq<char>, k: int)
    requires
        same_but_case(a, b),
        0 <= k,
    ensures
        host_end(a, k) == host_end(b, k),
    decreases a.len() - k,
{
    assert(lower_seq(a).len() == a.len() && lower_seq(b).len() == b.len());
    if k < a.len() {
        lemma_caseless_char(a, b, k, '/');
        lemma_caseless_char(a, b, k, '?');
        lemma_caseless_char(a, b, k, '#');
        lemma_caseless_host_end(a, b, k + 1);
    }
}

proof fn lemma_caseless_last(a: Seq<char>, b: Seq<char>, c: char, k: int)
    requires
        same_but_case(a, b),
        !is_alpha(c),
    ensures
        last_index(a, c, k) == last_index(b, c, k),
    decreases k,
{
    assert(lower_seq(a).len() == a.len() && lower_seq(b).len() == b.len());
    if 0 < k <= a.len() {
        lemma_caseless_char(a, b, k - 1, c);
        lemma_caseless_last(a, b, c, k - 1);
    }
}

proof fn lemma_caseless_find(a: Seq<char>, b: Seq<char>, c: char, k: int)
    requires
        same_but_case(a, b),
        !is_alpha(c),
        0 <= k,
    ensures
        crate::notation::find_from(a, k, c) == crate::notation::find_from(b, k, c),
    decreases a.len() - k,
{
    assert(lower_seq(a).len() == a.len() && lower_seq(b).len() == b.len());
    if k < a.len() {
        lemma_caseless_char(a, b, k, c);
        lemma_caseless_find(a, b, c, k + 1);
    }
}

/// The hosts of two links that differ only in case differ only in case.
proof fn lemma_caseless_host(a: Seq<char>, b: Seq<char>)
    requires
        same_but_case(a, b),
    ensures
        same_but_case(host_part(a), host_part(b)),
{
    assert(lower_seq(a).len() == a.len() && lower_seq(b).len() == b.len());
    lemma_caseless_scheme(a, b, 0);
    let (ra, rb) = (after_scheme(a), after_scheme(b));
    let k = find_scheme_sep(a, 0);
    lemma_find_scheme_sep(a, 0);
    if k + 3 <= a.len() {
        lemma_caseless_subrange(a, b, k + 3, a.len() as int);
    }
    lemma_caseless_host_end(ra, rb, 0);
    let e = host_end(ra, 0);
    assert(lower_seq(ra).len() == ra.len());
    lemma_host_end(ra, 0);
    lemma_caseless_subrange(ra, rb, 0, e);
    let (h0a, h0b) = (ra.subrange(0, e), rb.subrange(0, e));
    lemma_caseless_last(h0a, h0b, '@', h0a.len() as int);
    let at = last_index(h0a, '@', h0a.len() as int);
    lemma_last_index(h0a, '@', h0a.len() as int);
    assert(lower_seq(h0a).len() == h0a.len());
    lemma_caseless_subrange(h0a, h0b, at + 1, h0a.len() as int);
    let (h1a, h1b) = (h0a.subrange(at + 1, h0a.len() as int), h0b.subrange(at + 1, h0b.len() as int));
    lemma_caseless_find(h1a, h1b, ':', 0);
    crate::notation::lemma_find_from(h1a, 0, ':');
    let col = crate::notation::find_from(h1a, 0, ':');
    assert(lower_seq(h1a).len() == h1a.len());
    lemma_caseless_subrange(h1a, h1b, 0, col);
}

proof fn lemma_upper_trim_start(s: Seq<char>)
    ensures
        trim_start(upper_seq(s)) == upper_seq(trim_start(s)),
    decreases s.len(),
{
    let u = upper_seq(s);
    if s.len() > 0 {
        assert(u[0] == upper_char(s[0]));
        assert(is_ws(u[0]) == is_ws(s[0]));
        if is_ws(s[0]) {
            assert(u.drop_first() =~= upper_seq(s.drop_first()));
            lemma_upper_trim_start(s.drop_first());
        }
    } else {
        assert(u =~= s);
    }
}

proof fn lemma_upper_trim_end(s: Seq<char>)
    ensures
        trim_end(upper_seq(s)) == upper_seq(trim_end(s)),
    decreases s.len(),
{
    let u = upper_seq(s);
    if s.len() > 0 {
        assert(u.last() == upper_char(s.last()));
        assert(is_ws(u.last()) == is_ws(s.last()));
        if is_ws(s.last()) {
            assert(u.drop_last() =~= upper_seq(s.drop_last()));
            lemma_upper_trim_end(s.drop_last());
        }
    } else {
        assert(u =~= s);
    }
}

/// A link classifies the same with its ASCII letters in upper case, given
/// std's lower case of the texts the classification lower-cases.
proof fn lemma_classify_ignores_case(raw: Seq<char>)
    requires
        str_lowercase(trim(raw)) == lower_seq(trim(raw)),
        str_lowercase(trim(upper_seq(raw))) == lower_seq(trim(upper_seq(raw))),
        str_lowercase(normalize_spec(raw)) == lower_seq(normalize_spec(raw)),
        str_lowercase(normalize_spec(upper_seq(raw))) == lower_seq(normalize_spec(upper_seq(raw))),
        host_part(normalize_spec(raw)).len() > 0 ==> str_lowercase(host_part(normalize_spec(raw)))
            == lower_seq(host_part(normalize_spec(raw))),
        host_part(normalize_spec(upper_seq(raw))).len() > 0 ==> str_lowercase(
            host_part(normalize_spec(upper_seq(raw))),
        ) == lower_seq(host_part(normalize_spec(upper_seq(raw)))),
    ensures
        classify(upper_seq(raw)) == classify(raw),
{
    reveal_strlit("https://");
    let t = trim(raw);
    let t2 = trim(upper_seq(raw));
    lemma_upper_trim_start(raw);
    lemma_upper_trim_end(trim_start(raw));
    assert(t2 == upper_seq(t));
    assert(lower_seq(t2) =~= lower_seq(t));
    assert(has_ws(t2) == has_ws(t)) by {
        if has_ws(t) {
            let i = choose|i: int| 0 <= i < t.len() && is_ws(t[i]);
            assert(t2[i] == upper_char(t[i]));
        }
        if has_ws(t2) {
            let i = choose|i: int| 0 <= i < t2.len() && is_ws(t2[i]);
            assert(t2[i] == upper_char(t[i]));
        }
    }
    lemma_trim_idempotent(raw);
    lemma_trim_idempotent(upper_seq(raw));
    let n = normalize_spec(raw);
    let n2 = normalize_spec(upper_seq(raw));
    assert(normalize_spec(t) == n);
    assert(normalize_spec(t2) == n2);
    assert(has_web_scheme(t) == has_web_scheme(t2));
    assert(same_but_case(n, n2)) by {
        if t.len() == 0 {
        } else if has_web_scheme(t) {
        } else {
            assert(lower_seq("https://"@ + t) =~= lower_seq("https://"@) + lower_seq(t));
            assert(lower_seq("https://"@ + t2) =~= lower_seq("https://"@) + lower_seq(t2));
        }
    }
    assert(has_web_scheme(n) == has_web_scheme(n2));
    lemma_caseless_host(n, n2);
    let (h, h2) = (host_part(n), host_part(n2));
    assert(lower_seq(h).len() == h.len() && lower_seq(h2).len() == h2.len());
    assert(domain_of(n) == domain_of(n2));
}

/// Whether the link is written in ASCII, in which case it classifies the
/// same with its letters in upper case; learns what that needs by asking
/// std for the lower case of the texts the classification lower-cases.
pub fn classification_ignores_ascii_case(raw: &str) -> (r: bool)
    ensures
        r == all_ascii(raw@),
        r ==> classify(upper_seq(raw@)) == classify(raw@),
{
    let v = chars_of(raw);
    let mut i: usize = 0;
    while i < v.len()
        invariant
            0 <= i <= v.len(),
            v@ == raw@,
            forall|j: int| 0 <= j < i ==> (#[trigger] v@[j] as u32) < 128,
        decreases v.len() - i,
    {
        if (v[i] as u32) >= 128 {
            return false;
        }
        i = i + 1;
    }
    let up = ascii_upper(raw);
    proof {
        reveal_strlit("https://");
        assert(all_ascii(up@)) by {
            assert forall|j: int| 0 <= j < up@.len() implies (#[trigger] up@[j] as u32) < 128 by {
                assert(up@[j] == upper_char(raw@[j]));
            }
        }
        lemma_trim_ascii(raw@);
        lemma_trim_ascii(up@);
    }
    let t = trim_str(raw);
    let t2 = trim_str(up.as_str());
    let _ = lowercase(t.as_str());
    let _ = lowercase(t2.as_str());
    let n = normalize_url(raw);
    let n2 = normalize_url(up.as_str());
    proof {
        assert forall|x: Seq<char>| all_ascii(x) implies #[trigger] all_ascii(normalize_spec(x)) by {
            lemma_trim_ascii(x);
            let tx = trim(x);
            assert forall|j: int| 0 <= j < ("https://"@ + tx).len() implies (#[trigger] (
            "https://"@ + tx)[j] as u32) < 128 by {
                if j >= 8 {
                    assert(("https://"@ + tx)[j] == tx[j - 8]);
                }
            }
        }
        assert(all_ascii(n@));
        assert(all_ascii(n2@));
    }
    let _ = lowercase(n.as_str());
    let _ = lowercase(n2.as_str());
    let _ = dominio(&chars_of(n.as_str()));
    let _ = dominio(&chars_of(n2.as_str()));
    proof {
        lemma_classify_ignores_case(raw@);
    }
    true
}

/// Sorts what the user wrote in the link field.
///
/// It does not check that the page exists (that would take the network):
/// only that it has the shape of a link, and where it points.
pub fn clasificar_enlace(raw: &str) -> (k: LinkKind)
    ensures
        k == classify(raw@),
{
    let t = trim_str(raw);
    let tv = chars_of(t.as_str());
    if tv.len() == 0 {
        return LinkKind::Vacio;
    }
    // A space in the middle is never a valid link.
    if has_whitespace(&tv) {
        return LinkKind::Invalido;
    }
    let url = normalize_url(t.as_str());
    // Only http and https: no javascript: nor file:.
    if !es_enlace_web(url.as_str()) {
        return LinkKind::Invalido;
    }
    let uv = chars_of(url.as_str());
    match dominio(&uv) {
        None => LinkKind::Invalido,
        Some(host) => host_kind_of(&host),
    }
}

// ---------------------------------------------------------------------------
// Hashtags, search links, dates
// ---------------------------------------------------------------------------

/// The ASCII letters of a text, upper-cased.
pub open spec fn alpha_upper(s: Seq<char>) -> Seq<char>
    decreases s.len(),
{
    if s.len() == 0 {
        seq![]
    } else if is_alpha(s.last()) {
        alpha_upper(s.drop_last()).push(upper_char(s.last()))
    } else {
        alpha_upper(s.drop_last())
    }
}

/// The hashtag the community uses for a character's tech.
pub fn hashtag_for(name: &str) -> (r: String)
    ensures
        r@ == "#TOKON_"@ + alpha_upper(name@),
{
    let v = chars_of(name);
    let mut r = "#TOKON_".to_string();
    let ghost head = r@;
    let mut i: usize = 0;
    while i < v.len()
        invariant
            0 <= i <= v.len(),
            r@ == head + alpha_upper(v@.subrange(0, i as int)),
        decreases v.len() - i,
    {
        assert(v@.subrange(0, i + 1).drop_last() =~= v@.subrange(0, i as int));
        if is_alpha_char(v[i]) {
            push_char(&mut r, to_upper_char(v[i]));
        }
        i = i + 1;
        assert(r@ =~= head + alpha_upper(v@.subrange(0, i as int)));
    }
    assert(v@.subrange(0, v.len() as int) =~= v@);
    r
}

/// The text with every "#" written as "%23".
pub open spec fn encode_hash(s: Seq<char>) -> Seq<char>
    decreases s.len(),
{
    if s.len() == 0 {
        seq![]
    } else {
        encode_hash(s.drop_last()) + (if s.last() == '#' {
            seq!['%', '2', '3']
        } else {
            seq![s.last()]
        })
    }
}

/// A hashtag is "#TOKON_" and then only upper-case ASCII letters, one for
/// each ASCII letter of the name, in order: "Ms. Marvel" gives
/// "#TOKON_MSMARVEL".
pub proof fn lemma_hashtag_letters(name: Seq<char>)
    ensures
        forall|k: int| 0 <= k < alpha_upper(name).len() ==> 'A' <= #[trigger] alpha_upper(name)[k] <= 'Z',
        alpha_upper(name).len() == name.filter(|c: char| is_alpha(c)).len(),
        lower_seq(alpha_upper(name)) == lower_seq(name.filter(|c: char| is_alpha(c))),
    decreases name.len(),
{
    reveal_with_fuel(Seq::filter, 1);
    if name.len() > 0 {
        let d = name.drop_last();
        lemma_hashtag_letters(d);
        let f = name.filter(|c: char| is_alpha(c));
        let fd = d.filter(|c: char| is_alpha(c));
        if is_alpha(name.last()) {
            assert(f == fd.push(name.last()));
            assert(lower_seq(alpha_upper(name)) =~= lower_seq(alpha_upper(d)).push(
                lower_char(upper_char(name.last())),
            ));
            assert(lower_seq(f) =~= lower_seq(fd).push(lower_char(name.last())));
        } else {
            assert(f == fd);
        }
    } else {
        assert(name.filter(|c: char| is_alpha(c)) =~= Seq::<char>::empty());
    }
}

/// The search link writes every "#" as "%23", so the hashtag reaches X
/// whole instead of being cut as a fragment: no "#" is left, and nothing
/// else changes.
pub proof fn lemma_search_has_no_hash(tag: Seq<char>)
    ensures
        forall|k: int| 0 <= k < encode_hash(tag).len() ==> #[trigger] encode_hash(tag)[k] != '#',
        !tag.contains('#') ==> encode_hash(tag) == tag,
    decreases tag.len(),
{
    if tag.len() > 0 {
        let d = tag.drop_last();
        lemma_search_has_no_hash(d);
        let e = encode_hash(d);
        let tail = if tag.last() == '#' {
            seq!['%', '2', '3']
        } else {
            seq![tag.last()]
        };
        assert forall|k: int| 0 <= k < encode_hash(tag).len() implies #[trigger] encode_hash(tag)[k]
            != '#' by {
            if k < e.len() {
                assert(encode_hash(tag)[k] == e[k]);
            } else {
                assert(encode_hash(tag)[k] == tail[k - e.len()]);
            }
        }
        if !tag.contains('#') {
            assert(!d.contains('#')) by {
                if d.contains('#') {
                    let i = choose|i: int| 0 <= i < d.len() && d[i] == '#';
                    assert(tag[i] == '#');
                }
            }
            assert(tag[tag.len() - 1] != '#');
            assert(d.push(tag.last()) =~= tag);
        }
    } else {
        assert(encode_hash(tag) =~= tag);
    }
}

/// The X search for a hashtag, newest first.
pub fn x_search_url(hashtag: &str) -> (r: String)
    ensures
        r@ == "https://x.com/search?q="@ + encode_hash(hashtag@) + "&f=live"@,
{
    let v = chars_of(hashtag);
    let mut r = "https://x.com/search?q=".to_string();
    let ghost head = r@;
    let mut i: usize = 0;
    while i < v.len()
        invariant
            0 <= i <= v.len(),
            r@ == head + encode_hash(v@.subrange(0, i as int)),
        decreases v.len() - i,
    {
        assert(v@.subrange(0, i + 1).drop_last() =~= v@.subrange(0, i as int));
        if v[i] == '#' {
            push_char(&mut r, '%');
            push_char(&mut r, '2');
            push_char(&mut r, '3');
        } else {
            push_char(&mut r, v[i]);
        }
        i = i + 1;
        assert(r@ =~= head + encode_hash(v@.subrange(0, i as int)));
    }
    assert(v@.subrange(0, v.len() as int) =~= v@);
    append_str(&mut r, "&f=live");
    r
}

/// Short month names, January first; anything past December has none.
pub open spec fn month_name(i: int) -> Seq<char> {
    if i == 0 {
        "ene"@
    } else if i == 1 {
        "feb"@
    } else if i == 2 {
        "mar"@
    } else if i == 3 {
        "abr"@
    } else if i == 4 {
        "may"@
    } else if i == 5 {
        "jun"@
    } else if i == 6 {
        "jul"@
    } else if i == 7 {
        "ago"@
    } else if i == 8 {
        "sep"@
    } else if i == 9 {
        "oct"@
    } else if i == 10 {
        "nov"@
    } else if i == 11 {
        "dic"@
    } else {
        ""@
    }
}

/// At least two digits, with a leading zero when there is only one.
pub open spec fn pad2(d: Seq<char>) -> Seq<char> {
    if d.len() < 2 {
        seq!['0'] + d
    } else {
        d
    }
}

/// The Spanish short month names, January first.
pub open spec fn calendar_months() -> Seq<Seq<char>> {
    seq![
        "ene"@, "feb"@, "mar"@, "abr"@, "may"@, "jun"@, "jul"@, "ago"@, "sep"@, "oct"@, "nov"@,
        "dic"@,
    ]
}

/// The card's date names month `i` (counting January as 0) by the `i`-th
/// Spanish short name, in calendar order, twelve different names; past
/// December there is no name.
pub proof fn lemma_month_names(day: u32, i: int)
    ensures
        0 <= i < 12 ==> month_name(i) == calendar_months()[i],
        !(0 <= i < 12) ==> month_name(i) == ""@,
        forall|a: int, b: int|
            0 <= a < b < 12 ==> #[trigger] calendar_months()[a] != #[trigger] calendar_months()[b],
        0 <= i < 12 ==> (pad2(decimal(day as nat)) + seq![' '] + month_name(i)).subrange(
            (pad2(decimal(day as nat)).len() + 1) as int,
            (pad2(decimal(day as nat)).len() + 1 + calendar_months()[i].len()) as int,
        ) == calendar_months()[i],
{
    let m = calendar_months();
    reveal_strlit("ene");
    reveal_strlit("feb");
    reveal_strlit("mar");
    reveal_strlit("abr");
    reveal_strlit("may");
    reveal_strlit("jun");
    reveal_strlit("jul");
    reveal_strlit("ago");
    reveal_strlit("sep");
    reveal_strlit("oct");
    reveal_strlit("nov");
    reveal_strlit("dic");
    assert forall|a: int, b: int| 0 <= a < b < 12 implies #[trigger] m[a] != #[trigger] m[b] by {
        assert(m[a][0] != m[b][0] || m[a][1] != m[b][1] || m[a][2] != m[b][2]);
    }
    if 0 <= i < 12 {
        let p = pad2(decimal(day as nat));
        let whole = p + seq![' '] + month_name(i);
        assert(whole.subrange((p.len() + 1) as int, (p.len() + 1 + m[i].len()) as int) =~= m[i]);
    }
}

/// The day is always written with two digits or more: a leading zero
/// before a single digit ("05"), the number as it is otherwise.
pub proof fn lemma_day_two_digits(day: nat)
    ensures
        pad2(decimal(day)).len() >= 2,
        day < 10 ==> pad2(decimal(day)) == seq!['0', digit_char(day)],
        day >= 10 ==> pad2(decimal(day)) == decimal(day),
    decreases day,
{
    if day >= 10 {
        lemma_decimal_len(day);
    }
}

proof fn lemma_decimal_len(n: nat)
    ensures
        n >= 10 ==> decimal(n).len() >= 2,
        decimal(n).len() >= 1,
    decreases n,
{
    if n >= 10 {
        lemma_decimal_len(n / 10);
    }
}

fn month_str(i: usize) -> (r: &'static str)
    ensures
        r@ == month_name(i as int),
{
    if i == 0 {
        "ene"
    } else if i == 1 {
        "feb"
    } else if i == 2 {
        "mar"
    } else if i == 3 {
        "abr"
    } else if i == 4 {
        "may"
    } else if i == 5 {
        "jun"
    } else if i == 6 {
        "jul"
    } else if i == 7 {
        "ago"
    } else if i == 8 {
        "sep"
    } else if i == 9 {
        "oct"
    } else if i == 10 {
        "nov"
    } else if i == 11 {
        "dic"
    } else {
        ""
    }
}

/// "day month" from a day and a month already taken apart ("09 ago"), so
/// that it can be tested without the browser's clock.
pub fn format_day_month(day: u32, month_index: usize) -> (r: String)
    ensures
        r@ == pad2(decimal(day as nat)) + seq![' '] + month_name(month_index as int),
{
    let d = decimal_string(day as u64);
    let dv = chars_of(d.as_str());
    let mut r = String::new();
    if dv.len() < 2 {
        push_char(&mut r, '0');
    }
    append_str(&mut r, d.as_str());
    push_char(&mut r, ' ');
    append_str(&mut r, month_str(month_index));
    assert(r@ =~= pad2(decimal(day as nat)) + seq![' '] + month_name(month_index as int));
    r
}

pub open spec fn opt_str(o: Option<String>) -> Option<Seq<char>> {
    match o {
        Some(s) => Some(s@),
        None => None,
    }
}

/// "vs " and the rival's name, when the rival is a roster id.
pub open spec fn rival_label_spec(rival: Option<Seq<char>>) -> Option<Seq<char>> {
    match rival {
        Some(id) => match by_id(id) {
            Some(c) => Some("vs "@ + c.1),
            None => None,
        },
        None => None,
    }
}

/// The rival's name to show on a card ("vs Storm"), if there is one.
pub fn rival_label(rival_id: &Option<String>) -> (r: Option<String>)
    ensures
        opt_str(r) == rival_label_spec(opt_str(*rival_id)),
{
    match rival_id {
        Some(id) => match character_by_id(id.as_str()) {
            Some(c) => {
                let mut s = "vs ".to_string();
                append_str(&mut s, c.name);
                Some(s)
            },
            None => None,
        },
        None => None,
    }
}

// ---------------------------------------------------------------------------
// Saved tech
// ---------------------------------------------------------------------------

/// A saved piece of tech.
#[derive(Debug, Clone, PartialEq)]
pub struct Entry {
    pub id: String,
    pub title: String,
    pub notation: String,
    pub category: Category,
    pub rival_id: Option<String>,
    pub note: String,
    pub x_link: String,
    /// Milliseconds since the epoch, as `Date.now()` gives them.
    pub created_at: u64,
}

/// An entry by its characters.
pub struct EntryView {
    pub id: Seq<char>,
    pub title: Seq<char>,
    pub notation: Seq<char>,
    pub category: Category,
    pub rival_id: Option<Seq<char>>,
    pub note: Seq<char>,
    pub x_link: Seq<char>,
    pub created_at: u64,
}

impl View for Entry {
    type V = EntryView;

    open spec fn view(&self) -> EntryView {
        EntryView {
            id: self.id@,
            title: self.title@,
            notation: self.notation@,
            category: self.category,
            rival_id: opt_str(self.rival_id),
            note: self.note@,
            x_link: self.x_link@,
            created_at: self.created_at,
        }
    }
}

/// What the form hands back before it becomes an `Entry`.
#[derive(Debug, Clone, PartialEq)]
pub struct EntryDraft {
    pub title: String,
    pub notation: String,
    pub category: Category,
    pub rival_id: Option<String>,
    pub note: String,
    pub x_link: String,
}

/// A draft by its characters.
pub struct DraftView {
    pub title: Seq<char>,
    pub notation: Seq<char>,
    pub category: Category,
    pub rival_id: Option<Seq<char>>,
    pub note: Seq<char>,
    pub x_link: Seq<char>,
}

impl View for EntryDraft {
    type V = DraftView;

    open spec fn view(&self) -> DraftView {
        DraftView {
            title: self.title@,
            notation: self.notation@,
            category: self.category,
            rival_id: opt_str(self.rival_id),
            note: self.note@,
            x_link: self.x_link@,
        }
    }
}

/// An entry with what a draft says, keeping the entry's id and date.
pub open spec fn with_draft(e: EntryView, d: DraftView) -> EntryView {
    EntryView {
        id: e.id,
        title: d.title,
        notation: d.notation,
        category: d.category,
        rival_id: d.rival_id,
        note: d.note,
        x_link: d.x_link,
        created_at: e.created_at,
    }
}

/// A new entry from a draft, with its id and creation time.
pub open spec fn new_entry(d: DraftView, id: Seq<char>, created_at: u64) -> EntryView {
    with_draft(
        EntryView {
            id,
            title: seq![],
            notation: seq![],
            category: Category::Nota,
            rival_id: None,
            note: seq![],
            x_link: seq![],
            created_at,
        },
        d,
    )
}

pub(crate) fn copy_opt_string(o: &Option<String>) -> (r: Option<String>)
    ensures
        opt_str(r) == opt_str(*o),
{
    match o {
        Some(s) => Some(s.clone()),
        None => None,
    }
}

/// A copy of an entry, field by field.
pub(crate) fn entry_copy(e: &Entry) -> (r: Entry)
    ensures
        r@ == e@,
{
    Entry {
        id: e.id.clone(),
        title: e.title.clone(),
        notation: e.notation.clone(),
        category: e.category,
        rival_id: copy_opt_string(&e.rival_id),
        note: e.note.clone(),
        x_link: e.x_link.clone(),
        created_at: e.created_at,
    }
}

/// Turns what the form handed back into an entry, with a fresh id and the
/// time it was saved.
pub fn entry_from_draft(draft: EntryDraft, id: String, created_at: u64) -> (r: Entry)
    ensures
        r@ == new_entry(draft@, id@, created_at),
{
    Entry {
        id,
        title: draft.title,
        notation: draft.notation,
        category: draft.category,
        rival_id: draft.rival_id,
        note: draft.note,
        x_link: draft.x_link,
        created_at,
    }
}

/// The entries without those whose id is `id`.
pub open spec fn without_id(es: Seq<EntryView>, id: Seq<char>) -> Seq<EntryView> {
    es.filter(|e: EntryView| e.id != id)
}

/// Position of the first entry from the `k`-th on whose id is `id`, or the
/// length.
pub open spec fn id_pos(es: Seq<EntryView>, id: Seq<char>, k: int) -> int
    decreases es.len() - k,
{
    if k < 0 || k >= es.len() {
        es.len() as int
    } else if es[k].id == id {
        k
    } else {
        id_pos(es, id, k + 1)
    }
}

/// The entries with the first one whose id is `id` rewritten from a draft.
pub open spec fn with_update(es: Seq<EntryView>, id: Seq<char>, d: DraftView) -> Seq<EntryView> {
    let i = id_pos(es, id, 0);
    if i < es.len() {
        es.update(i, with_draft(es[i], d))
    } else {
        es
    }
}

pub proof fn lemma_id_pos(es: Seq<EntryView>, id: Seq<char>, k: int)
    requires
        0 <= k <= es.len(),
    ensures
        k <= id_pos(es, id, k) <= es.len(),
        id_pos(es, id, k) < es.len() ==> es[id_pos(es, id, k)].id == id,
        forall|j: int| k <= j < id_pos(es, id, k) ==> es[j].id != id,
    decreases es.len() - k,
{
    if k < es.len() && es[k].id != id {
        lemma_id_pos(es, id, k + 1);
    }
}

pub open spec fn entries_view(v: Seq<Entry>) -> Seq<EntryView> {
    v.map_values(|e: Entry| e@)
}

/// All the tech, by character id: each id once, with its entries in the order
/// they were added.
pub struct TechData {
    items: Vec<(String, Vec<Entry>)>,
}

/// The tech by its characters: (character id, entries) in order.
pub type TechView = Seq<(Seq<char>, Seq<EntryView>)>;

pub open spec fn keys_distinct(d: TechView) -> bool {
    forall|i: int, j: int| 0 <= i < j < d.len() ==> (#[trigger] d[i]).0 != (#[trigger] d[j]).0
}

/// Position of `key` in the tech from the `k`-th pair on, or the length.
pub open spec fn key_pos(d: TechView, key: Seq<char>, k: int) -> int
    decreases d.len() - k,
{
    if k < 0 || k >= d.len() {
        d.len() as int
    } else if d[k].0 == key {
        k
    } else {
        key_pos(d, key, k + 1)
    }
}

/// The entries saved for a character id, if any.
pub open spec fn lookup(d: TechView, key: Seq<char>) -> Option<Seq<EntryView>> {
    if key_pos(d, key, 0) < d.len() {
        Some(d[key_pos(d, key, 0)].1)
    } else {
        None
    }
}

/// The tech with one more entry at the end of a character's list.
pub open spec fn with_entry(d: TechView, key: Seq<char>, e: EntryView) -> TechView {
    let k = key_pos(d, key, 0);
    if k < d.len() {
        d.update(k, (key, d[k].1.push(e)))
    } else {
        d.push((key, seq![e]))
    }
}

/// The tech with a character's list replaced (or added).
pub open spec fn with_list(d: TechView, key: Seq<char>, es: Seq<EntryView>) -> TechView {
    let k = key_pos(d, key, 0);
    if k < d.len() {
        d.update(k, (key, es))
    } else {
        d.push((key, es))
    }
}

pub proof fn lemma_key_pos(d: TechView, key: Seq<char>, k: int)
    requires
        0 <= k <= d.len(),
    ensures
        k <= key_pos(d, key, k) <= d.len(),
        key_pos(d, key, k) < d.len() ==> d[key_pos(d, key, k)].0 == key,
        forall|j: int| k <= j < key_pos(d, key, k) ==> d[j].0 != key,
    decreases d.len() - k,
{
    if k < d.len() && d[k].0 != key {
        lemma_key_pos(d, key, k + 1);
    }
}

proof fn lemma_with_list_distinct(d: TechView, key: Seq<char>, es: Seq<EntryView>)
    requires
        keys_distinct(d),
    ensures
        keys_distinct(with_list(d, key, es)),
{
    lemma_key_pos(d, key, 0);
    let r = with_list(d, key, es);
    assert forall|i: int, j: int| 0 <= i < j < r.len() implies (#[trigger] r[i]).0 != (
    #[trigger] r[j]).0 by {
        if j == d.len() {
            assert(r[j].0 == key);
            assert(r[i] == d[i]);
        } else {
            assert(r[i].0 == d[i].0);
            assert(r[j].0 == d[j].0);
        }
    }
}

proof fn lemma_key_pos_same_keys(d1: TechView, d2: TechView, key: Seq<char>, k: int)
    requires
        0 <= k <= d1.len(),
        d1.len() == d2.len(),
        forall|i: int| 0 <= i < d1.len() ==> (#[trigger] d1[i]).0 == d2[i].0,
    ensures
        key_pos(d1, key, k) == key_pos(d2, key, k),
    decreases d1.len() - k,
{
    if k < d1.len() {
        assert(d1[k].0 == d2[k].0);
        lemma_key_pos_same_keys(d1, d2, key, k + 1);
    }
}

pub proof fn lemma_key_pos_push(d: TechView, x: (Seq<char>, Seq<EntryView>), key: Seq<char>, k: int)
    requires
        0 <= k <= d.len(),
    ensures
        key_pos(d.push(x), key, k) == if key_pos(d, key, k) < d.len() {
            key_pos(d, key, k)
        } else if x.0 == key {
            d.len() as int
        } else {
            d.len() + 1int
        },
    decreases d.len() - k,
{
    let r = d.push(x);
    if k < d.len() {
        assert(r[k] == d[k]);
        lemma_key_pos_push(d, x, key, k + 1);
    } else {
        assert(r[k] == x);
        assert(key_pos(r, key, k + 1) == r.len());
    }
}

/// Reading a character's list after adding an entry to it gives the list it
/// had with the entry at the end (or the entry alone); the other lists are
/// untouched.
pub proof fn lemma_lookup_with_entry(d: TechView, key: Seq<char>, e: EntryView, other: Seq<char>)
    ensures
        lookup(with_entry(d, key, e), other) == if other == key {
            Some(
                match lookup(d, key) {
                    Some(es) => es.push(e),
                    None => seq![e],
                },
            )
        } else {
            lookup(d, other)
        },
{
    lemma_key_pos(d, key, 0);
    lemma_key_pos(d, other, 0);
    let p = key_pos(d, key, 0);
    let r = with_entry(d, key, e);
    if p < d.len() {
        assert forall|i: int| 0 <= i < d.len() implies (#[trigger] d[i]).0 == r[i].0 by {}
        lemma_key_pos_same_keys(d, r, other, 0);
        if other == key {
            assert(key_pos(d, other, 0) == p);
        } else if key_pos(d, other, 0) < d.len() {
            assert(key_pos(d, other, 0) != p);
        }
    } else {
        lemma_key_pos_push(d, (key, seq![e]), other, 0);
        if other == key {
            assert(key_pos(d, other, 0) == d.len());
        }
    }
}

/// How many entries the tech holds, all characters together.
pub open spec fn total_entries(d: TechView) -> int
    decreases d.len(),
{
    if d.len() == 0 {
        0
    } else {
        total_entries(d.drop_last()) + d.last().1.len()
    }
}

proof fn lemma_total_update(d: TechView, p: int, x: (Seq<char>, Seq<EntryView>))
    requires
        0 <= p < d.len(),
    ensures
        total_entries(d.update(p, x)) == total_entries(d) - d[p].1.len() + x.1.len(),
    decreases d.len(),
{
    let r = d.update(p, x);
    if p == d.len() - 1 {
        assert(r.drop_last() =~= d.drop_last());
    } else {
        assert(r.drop_last() =~= d.drop_last().update(p, x));
        lemma_total_update(d.drop_last(), p, x);
    }
}

/// Adding an entry adds one to the count of entries.
pub proof fn lemma_total_with_entry(d: TechView, key: Seq<char>, e: EntryView)
    ensures
        total_entries(with_entry(d, key, e)) == total_entries(d) + 1,
{
    lemma_key_pos(d, key, 0);
    let p = key_pos(d, key, 0);
    if p < d.len() {
        lemma_total_update(d, p, (key, d[p].1.push(e)));
    } else {
        assert(d.push((key, seq![e])).drop_last() =~= d);
    }
}

pub open spec fn pairs_view(v: Seq<(String, Vec<Entry>)>) -> TechView {
    v.map_values(|p: (String, Vec<Entry>)| (p.0@, entries_view(p.1@)))
}

impl View for TechData {
    type V = TechView;

    closed spec fn view(&self) -> TechView {
        pairs_view(self.items@)
    }
}

impl TechData {
    #[verifier::type_invariant]
    spec fn inv(self) -> bool {
        keys_distinct(pairs_view(self.items@))
    }

    /// No tech at all.
    pub fn new() -> (d: TechData)
        ensures
            d@ == Seq::<(Seq<char>, Seq<EntryView>)>::empty(),
    {
        let d = TechData { items: Vec::new() };
        assert(pairs_view(d.items@) =~= Seq::<(Seq<char>, Seq<EntryView>)>::empty());
        d
    }

    pub fn is_empty(&self) -> (r: bool)
        ensures
            r == (self@.len() == 0),
    {
        self.items.len() == 0
    }

    /// How many characters have a list.
    pub fn len(&self) -> (r: usize)
        ensures
            r == self@.len(),
    {
        self.items.len()
    }

    fn position(&self, key: &str) -> (r: usize)
        ensures
            r == key_pos(self@, key@, 0),
    {
        let target = key.to_string();
        let mut k: usize = 0;
        while k < self.items.len()
            invariant
                0 <= k <= self.items.len(),
                target@ == key@,
                key_pos(self@, key@, 0) == key_pos(self@, key@, k as int),
            decreases self.items.len() - k,
        {
            assert(self@[k as int].0 == self.items@[k as int].0@);
            if self.items[k].0 == target {
                return k;
            }
            k = k + 1;
        }
        k
    }

    /// The entries saved for a character, if any.
    pub fn get(&self, key: &str) -> (r: Option<&Vec<Entry>>)
        ensures
            match r {
                Some(v) => lookup(self@, key@) == Some(entries_view(v@)),
                None => lookup(self@, key@) is None,
            },
    {
        let k = self.position(key);
        if k < self.items.len() {
            Some(&self.items[k].1)
        } else {
            None
        }
    }

    /// The character ids that have a list, in order.
    pub fn keys(&self) -> (r: Vec<String>)
        ensures
            r@.len() == self@.len(),
            forall|k: int| 0 <= k < r@.len() ==> #[trigger] r@[k]@ == self@[k].0,
            keys_distinct(self@),
    {
        proof {
            use_type_invariant(self);
        }
        let mut r: Vec<String> = Vec::new();
        let mut k: usize = 0;
        while k < self.items.len()
            invariant
                0 <= k <= self.items.len(),
                r@.len() == k,
                forall|j: int| 0 <= j < k ==> #[trigger] r@[j]@ == self@[j].0,
            decreases self.items.len() - k,
        {
            assert(self@[k as int].0 == self.items@[k as int].0@);
            r.push(self.items[k].0.clone());
            k = k + 1;
        }
        r
    }

    /// Replaces a character's list, or adds it.
    pub fn insert(&mut self, key: String, entries: Vec<Entry>)
        ensures
            final(self)@ == with_list(old(self)@, key@, entries_view(entries@)),
    {
        proof {
            use_type_invariant(&*self);
            lemma_with_list_distinct(self@, key@, entries_view(entries@));
            lemma_key_pos(self@, key@, 0);
        }
        let k = self.position(key.as_str());
        let ghost before = self.items@;
        if k < self.items.len() {
            let mut items: Vec<(String, Vec<Entry>)> = Vec::new();
            std::mem::swap(&mut items, &mut self.items);
            items[k] = (key, entries);
            assert(pairs_view(items@) =~= with_list(pairs_view(before), key@, entries_view(
                entries@,
            )));
            self.items = items;
        } else {
            let mut items: Vec<(String, Vec<Entry>)> = Vec::new();
            std::mem::swap(&mut items, &mut self.items);
            items.push((key, entries));
            assert(pairs_view(items@) =~= with_list(pairs_view(before), key@, entries_view(
                entries@,
            )));
            self.items = items;
        }
    }

    /// Adds an entry at the end of a character's list, creating the list
    /// if the character had none.
    pub fn push_entry(&mut self, key: &str, e: Entry)
        ensures
            final(self)@ == with_entry(old(self)@, key@, e@),
    {
        proof {
            use_type_invariant(&*self);
            lemma_key_pos(self@, key@, 0);
        }
        let k = self.position(key);
        let ghost before = self.items@;
        let ghost ev = e@;
        let mut items: Vec<(String, Vec<Entry>)> = Vec::new();
        std::mem::swap(&mut items, &mut self.items);
        if k < items.len() {
            let (name, mut list) = items.remove(k);
            let ghost lv = entries_view(list@);
            list.push(e);
            assert(entries_view(list@) =~= lv.push(ev));
            items.insert(k, (name, list));
            assert(pairs_view(items@) =~= with_entry(pairs_view(before), key@, ev));
        } else {
            let mut list: Vec<Entry> = Vec::new();
            list.push(e);
            assert(entries_view(list@) =~= seq![ev]);
            items.push((key.to_string(), list));
            assert(pairs_view(items@) =~= with_entry(pairs_view(before), key@, ev));
        }
        proof {
            lemma_with_list_distinct(pairs_view(before), key@, with_entry(pairs_view(before), key@, ev)[key_pos(pairs_view(before), key@, 0)].1);
            assert(with_entry(pairs_view(before), key@, ev) == with_list(pairs_view(before), key@, with_entry(pairs_view(before), key@, ev)[key_pos(pairs_view(before), key@, 0)].1));
        }
        self.items = items;
    }

    /// How many entries a character has (0 when it has no list).
    pub fn count(&self, key: &str) -> (r: usize)
        ensures
            r == match lookup(self@, key@) {
                Some(es) => es.len(),
                None => 0,
            },
    {
        match self.get(key) {
            Some(v) => v.len(),
            None => 0,
        }
    }

    /// Takes out of a character's list the entries whose id is `id`.
    pub fn remove_entry(&mut self, key: &str, id: &str)
        ensures
            final(self)@ == match lookup(old(self)@, key@) {
                Some(es) => with_list(old(self)@, key@, without_id(es, id@)),
                None => old(self)@,
            },
    {
        proof {
            use_type_invariant(&*self);
            lemma_key_pos(self@, key@, 0);
        }
        let k = self.position(key);
        if k >= self.items.len() {
            return ;
        }
        let ghost before = self.items@;
        let ghost d = self@;
        let mut items: Vec<(String, Vec<Entry>)> = Vec::new();
        std::mem::swap(&mut items, &mut self.items);
        let (name, list) = items.remove(k);
        let ghost es = entries_view(list@);
        assert(es == d[k as int].1);
        let target = id.to_string();
        let mut kept: Vec<Entry> = Vec::new();
        let mut i: usize = 0;
        while i < list.len()
            invariant
                0 <= i <= list.len(),
                es == entries_view(list@),
                target@ == id@,
                entries_view(kept@) == without_id(es.subrange(0, i as int), id@),
            decreases list.len() - i,
        {
            reveal_with_fuel(Seq::filter, 1);
            assert(es.subrange(0, i + 1).drop_last() =~= es.subrange(0, i as int));
            assert(es[i as int] == list@[i as int]@);
            let ghost kb = entries_view(kept@);
            if list[i].id != target {
                kept.push(entry_copy(&list[i]));
                assert(entries_view(kept@) =~= kb.push(es[i as int]));
            }
            i = i + 1;
        }
        assert(es.subrange(0, list.len() as int) =~= es);
        let ghost nv = entries_view(kept@);
        items.insert(k, (name, kept));
        assert(pairs_view(items@) =~= with_list(d, key@, nv));
        proof {
            lemma_with_list_distinct(d, key@, nv);
        }
        self.items = items;
    }

    /// Rewrites, from a draft, the first entry of a character's list whose
    /// id is `id`; its id and date stay.
    pub fn update_entry(&mut self, key: &str, id: &str, draft: EntryDraft)
        ensures
            final(self)@ == match lookup(old(self)@, key@) {
                Some(es) => with_list(old(self)@, key@, with_update(es, id@, draft@)),
                None => old(self)@,
            },
    {
        proof {
            use_type_invariant(&*self);
            lemma_key_pos(self@, key@, 0);
        }
        let k = self.position(key);
        if k >= self.items.len() {
            return ;
        }
        let ghost d = self@;
        let ghost dv = draft@;
        let mut items: Vec<(String, Vec<Entry>)> = Vec::new();
        std::mem::swap(&mut items, &mut self.items);
        let (name, mut list) = items.remove(k);
        let ghost es = entries_view(list@);
        assert(es == d[k as int].1);
        let target = id.to_string();
        proof {
            lemma_id_pos(es, id@, 0);
        }
        let mut i: usize = 0;
        while i < list.len()
            invariant
                0 <= i <= list.len(),
                es == entries_view(list@),
                target@ == id@,
                id_pos(es, id@, 0) == id_pos(es, id@, i as int),
            ensures
                0 <= i <= list.len(),
                id_pos(es, id@, 0) == i,
            decreases list.len() - i,
        {
            assert(es[i as int] == list@[i as int]@);
            if list[i].id == target {
                assert(es[i as int].id == id@);
                break;
            }
            i = i + 1;
        }
        if i < list.len() {
            let e = Entry {
                id: list[i].id.clone(),
                title: draft.title,
                notation: draft.notation,
                category: draft.category,
                rival_id: draft.rival_id,
                note: draft.note,
                x_link: draft.x_link,
                created_at: list[i].created_at,
            };
            assert(es[i as int] == list@[i as int]@);
            assert(e@ == with_draft(es[i as int], dv));
            list.set(i, e);
            assert(entries_view(list@) =~= with_update(es, id@, dv));
        } else {
            assert(entries_view(list@) =~= with_update(es, id@, dv));
        }
        let ghost nv = entries_view(list@);
        items.insert(k, (name, list));
        assert(pairs_view(items@) =~= with_list(d, key@, nv));
        proof {
            lemma_with_list_distinct(d, key@, nv);
        }
        self.items = items;
    }
}

} // verus!
