//! What the screen shows and how it answers the user: which entries are
//! listed and in what order, the side bar, the forms and the messages.
//!
//! Everything here works on plain values; the interface only paints it.
use vstd::prelude::*;
use crate::text::{
    append_str, chars_of, decimal, decimal_string, is_blank, lowercase, str_lowercase, trim,
    trim_str,
};
use crate::model::{
    by_id, character_by_id, characters, clasificar_enlace, classify, default_team_name,
    default_team_name_str, entries_view, entry_copy, normalize_spec, normalize_url, opt_str,
    roster_len, roster_row, slug_of, strings_view, Category, CharView, Character, DraftView, Entry,
    EntryDraft, EntryView, LinkKind, TeamConfig,
};
use crate::csv::ImportResult;
use crate::notation::{button_style, style_of, ButtonStyle};

verus! {

// ---------------------------------------------------------------------------
// Search
// ---------------------------------------------------------------------------

/// Whether `needle` occurs in `hay` as a run of consecutive characters.
pub open spec fn occurs_in(needle: Seq<char>, hay: Seq<char>) -> bool {
    exists|i: int|
        0 <= i && i + needle.len() <= hay.len() && #[trigger] hay.subrange(i, i + needle.len())
            == needle
}

/// Whether `needle` sits in `hay` at position `i`.
fn occurs_at(hay: &Vec<char>, needle: &Vec<char>, i: usize) -> (r: bool)
    requires
        i + needle.len() <= hay.len(),
    ensures
        r == (hay@.subrange(i as int, i + needle.len()) == needle@),
{
    let mut j: usize = 0;
    while j < needle.len()
        invariant
            0 <= j <= needle.len(),
            i + needle.len() <= hay.len(),
            forall|k: int| 0 <= k < j ==> hay@[i + k] == needle@[k],
        decreases needle.len() - j,
    {
        if hay[i + j] != needle[j] {
            assert(hay@.subrange(i as int, i + needle.len())[j as int] != needle@[j as int]);
            return false;
        }
        j = j + 1;
    }
    assert(hay@.subrange(i as int, i + needle.len()) =~= needle@);
    true
}

/// Whether `needle` occurs in `hay`.
fn occurs(hay: &Vec<char>, needle: &Vec<char>) -> (r: bool)
    ensures
        r == occurs_in(needle@, hay@),
{
    if needle.len() > hay.len() {
        return false;
    }
    let last = hay.len() - needle.len();
    let mut i: usize = 0;
    while i < last
        invariant
            last + needle.len() == hay.len(),
            0 <= i <= last,
            forall|j: int|
                0 <= j < i ==> #[trigger] hay@.subrange(j, j + needle.len()) != needle@,
        decreases last - i,
    {
        if occurs_at(hay, needle, i) {
            return true;
        }
        i = i + 1;
    }
    occurs_at(hay, needle, last)
}

/// The search box, as it is compared: trimmed and lower-cased.
pub open spec fn query_of(busqueda: Seq<char>) -> Seq<char> {
    str_lowercase(trim(busqueda))
}

/// An entry matches a search when the search is empty or its title,
/// notation or note holds it, ignoring case.
pub open spec fn matches_query(e: EntryView, q: Seq<char>) -> bool {
    ||| q.len() == 0
    ||| occurs_in(q, str_lowercase(e.title))
    ||| occurs_in(q, str_lowercase(e.notation))
    ||| occurs_in(q, str_lowercase(e.note))
}

/// An entry is listed when it is of the chosen category (any, with no
/// filter) and matches the search.
pub open spec fn passes(e: EntryView, filtro: Option<Category>, q: Seq<char>) -> bool {
    (filtro is None || filtro == Some(e.category)) && matches_query(e, q)
}

fn matches(e: &Entry, q: &Vec<char>) -> (r: bool)
    ensures
        r == matches_query(e@, q@),
{
    if q.len() == 0 {
        return true;
    }
    let title = lowercase(e.title.as_str());
    if occurs(&chars_of(title.as_str()), q) {
        return true;
    }
    let notation = lowercase(e.notation.as_str());
    if occurs(&chars_of(notation.as_str()), q) {
        return true;
    }
    let note = lowercase(e.note.as_str());
    occurs(&chars_of(note.as_str()), q)
}

// ---------------------------------------------------------------------------
// Newest first
// ---------------------------------------------------------------------------

/// Position of the first entry from the `k`-th on that is not newer than
/// `x`, or the length: where `x` goes in a list that is newest first.
pub open spec fn slot(t: Seq<EntryView>, x: EntryView, k: int) -> int
    decreases t.len() - k,
{
    if k < 0 || k >= t.len() {
        t.len() as int
    } else if t[k].created_at <= x.created_at {
        k
    } else {
        slot(t, x, k + 1)
    }
}

/// `x` put into a list that is newest first, before the entries that are
/// not newer than it.
pub open spec fn insert_newest(x: EntryView, t: Seq<EntryView>) -> Seq<EntryView> {
    t.insert(slot(t, x, 0), x)
}

/// The entries newest first; entries of the same time keep their order.
pub open spec fn newest_first(s: Seq<EntryView>) -> Seq<EntryView>
    decreases s.len(),
{
    if s.len() == 0 {
        seq![]
    } else {
        insert_newest(s[0], newest_first(s.drop_first()))
    }
}

pub open spec fn is_newest_first(s: Seq<EntryView>) -> bool {
    forall|i: int, j: int|
        0 <= i < j < s.len() ==> (#[trigger] s[i]).created_at >= (#[trigger] s[j]).created_at
}

pub proof fn lemma_slot(t: Seq<EntryView>, x: EntryView, k: int)
    requires
        0 <= k <= t.len(),
    ensures
        k <= slot(t, x, k) <= t.len(),
        slot(t, x, k) < t.len() ==> t[slot(t, x, k)].created_at <= x.created_at,
        forall|j: int| k <= j < slot(t, x, k) ==> t[j].created_at > x.created_at,
    decreases t.len() - k,
{
    if k < t.len() && t[k].created_at > x.created_at {
        lemma_slot(t, x, k + 1);
    }
}

/// What the list shows is newest first, and holds the same entries as
/// what it was made from.
pub proof fn lemma_newest_first(s: Seq<EntryView>)
    ensures
        is_newest_first(newest_first(s)),
        newest_first(s).to_multiset() == s.to_multiset(),
    decreases s.len(),
{
    broadcast use vstd::seq_lib::to_multiset_insert;

    if s.len() > 0 {
        lemma_newest_first(s.drop_first());
        let t = newest_first(s.drop_first());
        let x = s[0];
        lemma_slot(t, x, 0);
        let p = slot(t, x, 0);
        let r = t.insert(p, x);
        assert forall|i: int, j: int| 0 <= i < j < r.len() implies (#[trigger] r[i]).created_at
            >= (#[trigger] r[j]).created_at by {
            if j < p {
                assert(r[i] == t[i] && r[j] == t[j]);
            } else if j == p {
                assert(r[i] == t[i] && r[j] == x);
            } else if i < p {
                assert(r[i] == t[i] && r[j] == t[j - 1]);
            } else if i == p {
                assert(r[i] == x && r[j] == t[j - 1]);
                assert(t[p].created_at <= x.created_at);
            } else {
                assert(r[i] == t[i - 1] && r[j] == t[j - 1]);
            }
        }
        assert(s.drop_first().insert(0, x) =~= s);
        assert(s.drop_first().insert(0, x).to_multiset() == s.drop_first().to_multiset().insert(
            x,
        ));
        assert(r.to_multiset() == t.to_multiset().insert(x));
        assert(newest_first(s) == r);
    } else {
        assert(newest_first(s) =~= s);
    }
}

/// Every entry the list shows is of the chosen category (any, with no
/// filter) and matches the search; the list holds exactly the entries that
/// do, each as many times as it was saved, newest first.
pub proof fn lemma_visible_passes(entries: Seq<EntryView>, filtro: Option<Category>, q: Seq<char>)
    ensures
        ({
            let r = newest_first(entries.filter(|e: EntryView| passes(e, filtro, q)));
            &&& forall|i: int|
                0 <= i < r.len() ==> matches_query(#[trigger] r[i], q) && (filtro matches Some(c)
                    ==> r[i].category == c)
            &&& r.to_multiset() == entries.filter(|e: EntryView| passes(e, filtro, q)).to_multiset()
            &&& is_newest_first(r)
        }),
{
    broadcast use vstd::seq_lib::to_multiset_contains;

    let keep = |e: EntryView| passes(e, filtro, q);
    let f = entries.filter(keep);
    let r = newest_first(f);
    lemma_newest_first(f);
    assert forall|i: int| 0 <= i < r.len() implies matches_query(#[trigger] r[i], q) && (
    filtro matches Some(c) ==> r[i].category == c) by {
        assert(r.contains(r[i]));
        assert(r.to_multiset().count(r[i]) > 0);
        assert(f.contains(r[i]));
        let j = choose|j: int| 0 <= j < f.len() && f[j] == r[i];
        entries.lemma_filter_pred(keep, j);
    }
}

/// Where `x` goes in `v`, a list that is newest first.
fn find_slot(v: &Vec<Entry>, x: &Entry) -> (r: usize)
    ensures
        r == slot(entries_view(v@), x@, 0),
{
    let ghost t = entries_view(v@);
    let mut k: usize = 0;
    while k < v.len()
        invariant
            0 <= k <= v.len(),
            t == entries_view(v@),
            slot(t, x@, 0) == slot(t, x@, k as int),
        decreases v.len() - k,
    {
        assert(t[k as int] == v@[k as int]@);
        if v[k].created_at <= x.created_at {
            return k;
        }
        k = k + 1;
    }
    k
}

/// The entries of a character that the list shows: those of the chosen
/// category (all of them with no filter) that match the search box, newest
/// first.
pub fn visible_entries(entries: &Vec<Entry>, filtro: Option<Category>, busqueda: &str) -> (r: Vec<
    Entry,
>)
    ensures
        entries_view(r@) == newest_first(
            entries_view(entries@).filter(|e: EntryView| passes(e, filtro, query_of(busqueda@))),
        ),
{
    let t = trim_str(busqueda);
    let lower = lowercase(t.as_str());
    let q = chars_of(lower.as_str());
    let ghost qv = query_of(busqueda@);
    let ghost all = entries_view(entries@);
    let ghost keep = |e: EntryView| passes(e, filtro, qv);
    let mut chosen: Vec<Entry> = Vec::new();
    let mut k: usize = 0;
    while k < entries.len()
        invariant
            0 <= k <= entries.len(),
            q@ == qv,
            all == entries_view(entries@),
            keep == (|e: EntryView| passes(e, filtro, qv)),
            entries_view(chosen@) == all.subrange(0, k as int).filter(keep),
        decreases entries.len() - k,
    {
        reveal_with_fuel(Seq::filter, 1);
        assert(all.subrange(0, k + 1).drop_last() =~= all.subrange(0, k as int));
        assert(all[k as int] == entries@[k as int]@);
        let e = &entries[k];
        let in_category = match filtro {
            None => true,
            Some(c) => e.category == c,
        };
        let ghost before = entries_view(chosen@);
        if in_category && matches(e, &q) {
            chosen.push(entry_copy(e));
            assert(entries_view(chosen@) =~= before.push(all[k as int]));
        }
        k = k + 1;
    }
    assert(all.subrange(0, entries.len() as int) =~= all);
    let ghost f = entries_view(chosen@);
    let n = chosen.len();
    let mut r: Vec<Entry> = Vec::new();
    let mut i: usize = n;
    while i > 0
        invariant
            0 <= i <= n,
            n == chosen.len(),
            f == entries_view(chosen@),
            entries_view(r@) == newest_first(f.subrange(i as int, n as int)),
        decreases i,
    {
        i = i - 1;
        let x = entry_copy(&chosen[i]);
        assert(f[i as int] == chosen@[i as int]@);
        let p = find_slot(&r, &x);
        let ghost rv = entries_view(r@);
        proof {
            lemma_slot(rv, x@, 0);
        }
        r.insert(p, x);
        assert(f.subrange(i as int, n as int).drop_first() =~= f.subrange(i + 1, n as int));
        assert(f.subrange(i as int, n as int)[0] == f[i as int]);
        assert(entries_view(r@) =~= rv.insert(p as int, f[i as int]));
    }
    assert(f.subrange(0, n as int) =~= f);
    r
}

// ---------------------------------------------------------------------------
// Side bar
// ---------------------------------------------------------------------------

pub open spec fn chars_view(v: Seq<Character>) -> Seq<CharView> {
    v.map_values(|c: Character| c@)
}

/// The roster, in order.
pub open spec fn roster_seq() -> Seq<CharView> {
    Seq::new(roster_len() as nat, |k: int| roster_row(k))
}

/// The team's members in the team's order; ids that are not in the roster
/// are left out.
pub open spec fn members_spec(ids: Seq<Seq<char>>) -> Seq<CharView>
    decreases ids.len(),
{
    if ids.len() == 0 {
        seq![]
    } else {
        members_spec(ids.drop_last()) + match by_id(ids.last()) {
            Some(c) => seq![c],
            None => seq![],
        }
    }
}

/// The characters of the team, as the side bar lists them first.
pub fn team_members(team: &TeamConfig) -> (r: Vec<Character>)
    ensures
        chars_view(r@) == members_spec(team@.1),
{
    let ghost ids = team@.1;
    let mut r: Vec<Character> = Vec::new();
    let mut k: usize = 0;
    while k < team.ids.len()
        invariant
            0 <= k <= team.ids.len(),
            ids == team@.1,
            chars_view(r@) == members_spec(ids.subrange(0, k as int)),
        decreases team.ids.len() - k,
    {
        assert(ids.subrange(0, k + 1).drop_last() =~= ids.subrange(0, k as int));
        assert(ids[k as int] == team.ids@[k as int]@);
        let ghost before = chars_view(r@);
        match character_by_id(team.ids[k].as_str()) {
            Some(c) => {
                r.push(c);
                assert(chars_view(r@) =~= before + seq![c@]);
            },
            None => {
                assert(chars_view(r@) =~= before + Seq::<CharView>::empty());
            },
        }
        k = k + 1;
    }
    assert(ids.subrange(0, team.ids.len() as int) =~= ids);
    r
}

/// The rest of the roster, out of the team, in roster order.
pub fn roster_rest(team: &TeamConfig) -> (r: Vec<Character>)
    ensures
        chars_view(r@) == roster_seq().filter(|c: CharView| !team@.1.contains(c.0)),
{
    let ghost keep = |c: CharView| !team@.1.contains(c.0);
    let all = characters();
    let mut r: Vec<Character> = Vec::new();
    let mut k: usize = 0;
    while k < 20
        invariant
            0 <= k <= 20,
            all@.len() == roster_len(),
            forall|j: int| 0 <= j < roster_len() ==> #[trigger] all@[j]@ == roster_row(j),
            keep == (|c: CharView| !team@.1.contains(c.0)),
            chars_view(r@) == roster_seq().subrange(0, k as int).filter(keep),
        decreases 20 - k,
    {
        reveal_with_fuel(Seq::filter, 1);
        assert(roster_seq().subrange(0, k + 1).drop_last() =~= roster_seq().subrange(0, k as int));
        let c = all[k];
        assert(c@ == roster_seq()[k as int]);
        let ghost before = chars_view(r@);
        if !team.contains(c.id) {
            r.push(c);
            assert(chars_view(r@) =~= before.push(c@));
        }
        k = k + 1;
    }
    assert(roster_seq().subrange(0, 20) =~= roster_seq());
    r
}

/// The possible rivals of a character: the rest of the roster, in order.
pub fn rivals_for(character_id: &str) -> (r: Vec<Character>)
    ensures
        chars_view(r@) == roster_seq().filter(|c: CharView| c.0 != character_id@),
{
    let ghost keep = |c: CharView| c.0 != character_id@;
    let all = characters();
    let target = character_id.to_string();
    let mut r: Vec<Character> = Vec::new();
    let mut k: usize = 0;
    while k < 20
        invariant
            0 <= k <= 20,
            all@.len() == roster_len(),
            forall|j: int| 0 <= j < roster_len() ==> #[trigger] all@[j]@ == roster_row(j),
            target@ == character_id@,
            keep == (|c: CharView| c.0 != character_id@),
            chars_view(r@) == roster_seq().subrange(0, k as int).filter(keep),
        decreases 20 - k,
    {
        reveal_with_fuel(Seq::filter, 1);
        assert(roster_seq().subrange(0, k + 1).drop_last() =~= roster_seq().subrange(0, k as int));
        let c = all[k];
        assert(c@ == roster_seq()[k as int]);
        let ghost before = chars_view(r@);
        if c.id.to_string() != target {
            r.push(c);
            assert(chars_view(r@) =~= before.push(c@));
        }
        k = k + 1;
    }
    assert(roster_seq().subrange(0, 20) =~= roster_seq());
    r
}

/// The character shown when the app opens: the first of the team, or the
/// first of the roster if the team is empty.
pub fn initial_selection(team: &TeamConfig) -> (r: String)
    ensures
        r@ == if team@.1.len() > 0 {
            team@.1[0]
        } else {
            roster_row(0).0
        },
{
    if team.ids.len() > 0 {
        assert(team@.1[0] == team.ids@[0]@);
        team.ids[0].clone()
    } else {
        let all = characters();
        assert(all@[0]@ == roster_row(0));
        all[0].id.to_string()
    }
}

/// The character whose page is shown; an unknown id shows the first of the
/// roster.
pub fn selected_character(id: &str) -> (r: Character)
    ensures
        r@ == match by_id(id@) {
            Some(c) => c,
            None => roster_row(0),
        },
{
    match character_by_id(id) {
        Some(c) => c,
        None => {
            let all = characters();
            assert(all@[0]@ == roster_row(0));
            all[0]
        },
    }
}

// ---------------------------------------------------------------------------
// Forms
// ---------------------------------------------------------------------------

pub open spec fn plural(n: nat) -> Seq<char> {
    if n == 1 {
        ""@
    } else {
        "s"@
    }
}

fn plural_str(n: usize) -> (r: &'static str)
    ensures
        r@ == plural(n as nat),
{
    if n == 1 {
        ""
    } else {
        "s"
    }
}

/// The team the editor saves: a blank name becomes the default one, any
/// other is trimmed.
pub fn team_from_editor(name: &str, ids: Vec<String>) -> (t: TeamConfig)
    ensures
        t@ == (
            if is_blank(name@) {
                default_team_name()
            } else {
                trim(name@)
            },
            strings_view(ids@),
        ),
{
    let t = trim_str(name);
    let tv = chars_of(t.as_str());
    let nombre = if tv.len() == 0 {
        default_team_name_str().to_string()
    } else {
        t
    };
    TeamConfig { name: nombre, ids }
}

/// The hint under the team grid: how many members are chosen.
pub fn team_hint(n: usize) -> (r: String)
    ensures
        r@ == "Tōkon usa equipos de 4 · llevas "@ + decimal(n as nat) + " seleccionado"@ + plural(
            n as nat,
        ),
{
    let mut r = "Tōkon usa equipos de 4 · llevas ".to_string();
    append_str(&mut r, decimal_string(n as u64).as_str());
    append_str(&mut r, " seleccionado");
    append_str(&mut r, plural_str(n));
    r
}

/// The draft the entry form hands back, or nothing while the title is
/// blank (the save button is then disabled). Text fields are trimmed, the
/// rival counts only for a matchup that names one, and the link gets its
/// scheme.
pub fn draft_from_form(
    title: &str,
    notation: &str,
    category: Category,
    rival: &str,
    note: &str,
    x_link: &str,
) -> (r: Option<EntryDraft>)
    ensures
        match r {
            None => is_blank(title@),
            Some(d) => !is_blank(title@) && d@ == (DraftView {
                title: trim(title@),
                notation: trim(notation@),
                category,
                rival_id: if category == Category::Matchup && rival@.len() > 0 {
                    Some(rival@)
                } else {
                    None
                },
                note: trim(note@),
                x_link: normalize_spec(x_link@),
            }),
        },
{
    let t = trim_str(title);
    let tv = chars_of(t.as_str());
    if tv.len() == 0 {
        return None;
    }
    let rv = chars_of(rival);
    let rival_id = if category == Category::Matchup && rv.len() > 0 {
        Some(rival.to_string())
    } else {
        None
    };
    Some(
        EntryDraft {
            title: t,
            notation: trim_str(notation),
            category,
            rival_id,
            note: trim_str(note),
            x_link: normalize_url(x_link),
        },
    )
}

// ---------------------------------------------------------------------------
// Messages
// ---------------------------------------------------------------------------

pub open spec fn link_title_of(k: LinkKind) -> Seq<char> {
    match k {
        LinkKind::X => "Abrir en X"@,
        LinkKind::YouTube => "Abrir en YouTube"@,
        _ => "Abrir el enlace"@,
    }
}

/// The tooltip of a card's link.
pub fn link_title(x_link: &str) -> (r: &'static str)
    ensures
        r@ == link_title_of(classify(x_link@)),
{
    match clasificar_enlace(x_link) {
        LinkKind::X => "Abrir en X",
        LinkKind::YouTube => "Abrir en YouTube",
        _ => "Abrir el enlace",
    }
}

/// What a click on a card's link does.
#[derive(Debug, Clone, Copy, PartialEq, Eq, Structural)]
pub enum ClicEnlace {
    /// In a browser: nothing is touched, and the link opens its tab as any
    /// link does.
    Navegar,
    /// In the desktop window, whose webview ignores ordinary links: the page
    /// must not navigate, and the desktop is asked to open the link.
    PedirAlEscritorio,
}

/// How a click on a card's link is answered, in the desktop window or not.
pub fn clic_en_enlace(escritorio: bool) -> (r: ClicEnlace)
    ensures
        r == if escritorio {
            ClicEnlace::PedirAlEscritorio
        } else {
            ClicEnlace::Navegar
        },
{
    if escritorio {
        ClicEnlace::PedirAlEscritorio
    } else {
        ClicEnlace::Navegar
    }
}

/// Whether the link must be shown for the user to copy, once the desktop
/// was asked to open it: when it could not.
pub fn mostrar_enlace_tras_pedirlo(abierto: bool) -> (r: bool)
    ensures
        r == !abierto,
{
    !abierto
}

/// The CSS classes of a card's category tag.
pub fn tag_class(c: Category) -> (r: String)
    ensures
        r@ == "tag tag-"@ + slug_of(c),
{
    let mut r = "tag tag-".to_string();
    append_str(&mut r, c.slug());
    r
}

/// The messages joined with a space between each two.
pub open spec fn spaced(s: Seq<Seq<char>>) -> Seq<char>
    decreases s.len(),
{
    if s.len() == 0 {
        seq![]
    } else if s.len() == 1 {
        s[0]
    } else {
        spaced(s.drop_last()) + seq![' '] + s.last()
    }
}

/// The banner after an import: how many entries came in and, for the rows
/// with problems, how many and the first three problems.
pub open spec fn import_summary_spec(added: nat, errors: Seq<Seq<char>>) -> Seq<char> {
    (if added > 0 {
        decimal(added) + " tech importada"@ + plural(added) + ". "@
    } else {
        seq![]
    }) + (if errors.len() > 0 {
        decimal(errors.len()) + " fila"@ + plural(errors.len()) + " con problemas: "@ + spaced(
            errors.take(if errors.len() < 3 {
                errors.len() as int
            } else {
                3
            }),
        )
    } else {
        seq![]
    })
}

/// The text of the banner shown after an import.
pub fn import_summary(result: &ImportResult) -> (r: String)
    ensures
        r@ == import_summary_spec(result.added as nat, strings_view(result.errors@)),
{
    let ghost errs = strings_view(result.errors@);
    let mut r = String::new();
    if result.added > 0 {
        append_str(&mut r, decimal_string(result.added as u64).as_str());
        append_str(&mut r, " tech importada");
        append_str(&mut r, plural_str(result.added));
        append_str(&mut r, ". ");
    }
    let ghost head = r@;
    let n = result.errors.len();
    if n > 0 {
        append_str(&mut r, decimal_string(n as u64).as_str());
        append_str(&mut r, " fila");
        append_str(&mut r, plural_str(n));
        append_str(&mut r, " con problemas: ");
        let ghost mid = r@;
        let m: usize = if n < 3 {
            n
        } else {
            3
        };
        let mut k: usize = 0;
        while k < m
            invariant
                0 <= k <= m,
                m <= n,
                n == result.errors.len(),
                errs == strings_view(result.errors@),
                r@ == mid + spaced(errs.take(k as int)),
            decreases m - k,
        {
            assert(errs.take(k + 1).drop_last() =~= errs.take(k as int));
            assert(errs.take(k + 1).last() == errs[k as int]);
            assert(errs[k as int] == result.errors@[k as int]@);
            proof {
                reveal_strlit(" ");
            }
            if k > 0 {
                append_str(&mut r, " ");
            }
            append_str(&mut r, result.errors[k].as_str());
            proof {
                if k == 0 {
                    assert(errs.take(1) =~= seq![errs[0]]);
                    assert(r@ =~= mid + spaced(errs.take(1)));
                } else {
                    assert(spaced(errs.take(k + 1)) == spaced(errs.take(k as int)) + seq![' ']
                        + errs[k as int]);
                    assert(r@ =~= mid + spaced(errs.take(k + 1)));
                }
            }
            k = k + 1;
        }
        assert(r@ =~= head + (decimal(n as nat) + " fila"@ + plural(n as nat) + " con problemas: "@
            + spaced(errs.take(m as int))));
    } else {
        assert(r@ =~= head + Seq::<char>::empty());
    }
    r
}

/// What the list says when it shows nothing.
pub fn empty_message(name: &str, has_entries: bool) -> (r: String)
    ensures
        r@ == if has_entries {
            "No hay resultados para este filtro."@
        } else {
            "Aún no hay tech para "@ + name@ + ". Añade la primera."@
        },
{
    if has_entries {
        "No hay resultados para este filtro.".to_string()
    } else {
        let mut r = "Aún no hay tech para ".to_string();
        append_str(&mut r, name);
        append_str(&mut r, ". Añade la primera.");
        r
    }
}

// ---------------------------------------------------------------------------
// Notation painting
// ---------------------------------------------------------------------------

/// The inline style of a button badge: its colours.
pub fn badge_style(b: &ButtonStyle) -> (r: String)
    ensures
        r@ == "background: "@ + b@.1 + "; color: "@ + b@.2,
{
    let mut r = "background: ".to_string();
    append_str(&mut r, b.bg);
    append_str(&mut r, "; color: ");
    append_str(&mut r, b.fg);
    r
}

/// The colour of a legend dot: the button's background, grey for a code
/// that is not a button.
pub fn legend_color(code: &str) -> (r: &'static str)
    ensures
        r@ == match style_of(code@) {
            Some(s) => s.1,
            None => "#888"@,
        },
{
    match button_style(code) {
        Some(b) => b.bg,
        None => "#888",
    }
}

/// The mark painted for a connector between hits: as it was written, so
/// that ">" and "<" stay apart.
pub fn link_mark(link: char) -> (r: &'static str)
    ensures
        r@ == if link == '<' {
            "‹"@
        } else {
            "›"@
        },
{
    if link == '<' {
        "‹"
    } else {
        "›"
    }
}

// ---------------------------------------------------------------------------
// What the screen is doing
// ---------------------------------------------------------------------------

/// The state of the screen: whose page is open, the filter and search box,
/// and which form or editor is open.
pub struct Pantalla {
    pub selected: String,
    pub filtro: Option<Category>,
    pub busqueda: String,
    /// The form for a new entry.
    pub form_open: bool,
    /// The entry being edited in place, if any.
    pub editing_id: Option<String>,
    pub team_editor_open: bool,
}

/// The screen by its characters.
pub struct PantallaView {
    pub selected: Seq<char>,
    pub filtro: Option<Category>,
    pub busqueda: Seq<char>,
    pub form_open: bool,
    pub editing_id: Option<Seq<char>>,
    pub team_editor_open: bool,
}

impl View for Pantalla {
    type V = PantallaView;

    open spec fn view(&self) -> PantallaView {
        PantallaView {
            selected: self.selected@,
            filtro: self.filtro,
            busqueda: self.busqueda@,
            form_open: self.form_open,
            editing_id: opt_str(self.editing_id),
            team_editor_open: self.team_editor_open,
        }
    }
}

/// What the user does on the screen.
pub enum Accion {
    /// Picks a character in the side bar.
    Seleccionar(String),
    /// Presses "Nueva tech": the form opens, or closes if it was open.
    NuevaTech,
    /// The new-entry form was cancelled or saved.
    CerrarFormulario,
    /// Presses edit on a card.
    Editar(String),
    /// The edit was cancelled or saved.
    TerminarEdicion,
    /// Presses the pencil next to "Equipo".
    AbrirEditorEquipo,
    /// The team editor was cancelled or saved.
    CerrarEditorEquipo,
    /// Picks a chip of the category bar (`None` is "Todo").
    Filtrar(Option<Category>),
    /// Types in the search box.
    Buscar(String),
}

/// The screen after an action.
pub open spec fn step(p: PantallaView, a: Accion) -> PantallaView {
    match a {
        Accion::Seleccionar(id) => PantallaView {
            selected: id@,
            filtro: None,
            busqueda: seq![],
            form_open: false,
            editing_id: None,
            team_editor_open: false,
        },
        Accion::NuevaTech => PantallaView { form_open: !p.form_open, editing_id: None, ..p },
        Accion::CerrarFormulario => PantallaView { form_open: false, ..p },
        Accion::Editar(id) => PantallaView { editing_id: Some(id@), form_open: false, ..p },
        Accion::TerminarEdicion => PantallaView { editing_id: None, ..p },
        Accion::AbrirEditorEquipo => PantallaView {
            team_editor_open: true,
            form_open: false,
            editing_id: None,
            ..p
        },
        Accion::CerrarEditorEquipo => PantallaView { team_editor_open: false, ..p },
        Accion::Filtrar(f) => PantallaView { filtro: f, ..p },
        Accion::Buscar(q) => PantallaView { busqueda: q@, ..p },
    }
}

impl Pantalla {
    /// The screen when the app opens on a team: its first member's page
    /// (or the roster's first), nothing open, no filter.
    pub fn inicial(team: &TeamConfig) -> (p: Pantalla)
        ensures
            p@ == (PantallaView {
                selected: if team@.1.len() > 0 {
                    team@.1[0]
                } else {
                    roster_row(0).0
                },
                filtro: None,
                busqueda: seq![],
                form_open: false,
                editing_id: None,
                team_editor_open: false,
            }),
    {
        Pantalla {
            selected: initial_selection(team),
            filtro: None,
            busqueda: String::new(),
            form_open: false,
            editing_id: None,
            team_editor_open: false,
        }
    }

    /// Answers an action. Picking a character starts its page afresh.
    pub fn aplicar(self, a: Accion) -> (p: Pantalla)
        ensures
            p@ == step(self@, a),
    {
        let Pantalla { selected, filtro, busqueda, form_open, editing_id, team_editor_open } = self;
        match a {
            Accion::Seleccionar(id) => Pantalla {
                selected: id,
                filtro: None,
                busqueda: String::new(),
                form_open: false,
                editing_id: None,
                team_editor_open: false,
            },
            Accion::NuevaTech => Pantalla {
                selected,
                filtro,
                busqueda,
                form_open: !form_open,
                editing_id: None,
                team_editor_open,
            },
            Accion::CerrarFormulario => Pantalla {
                selected,
                filtro,
                busqueda,
                form_open: false,
                editing_id,
                team_editor_open,
            },
            Accion::Editar(id) => Pantalla {
                selected,
                filtro,
                busqueda,
                form_open: false,
                editing_id: Some(id),
                team_editor_open,
            },
            Accion::TerminarEdicion => Pantalla {
                selected,
                filtro,
                busqueda,
                form_open,
                editing_id: None,
                team_editor_open,
            },
            Accion::AbrirEditorEquipo => Pantalla {
                selected,
                filtro,
                busqueda,
                form_open: false,
                editing_id: None,
                team_editor_open: true,
            },
            Accion::CerrarEditorEquipo => Pantalla {
                selected,
                filtro,
                busqueda,
                form_open,
                editing_id,
                team_editor_open: false,
            },
            Accion::Filtrar(f) => Pantalla {
                selected,
                filtro: f,
                busqueda,
                form_open,
                editing_id,
                team_editor_open,
            },
            Accion::Buscar(q) => Pantalla {
                selected,
                filtro,
                busqueda: q,
                form_open,
                editing_id,
                team_editor_open,
            },
        }
    }

    /// Whether the entry with this id is shown as a form, being edited.
    pub fn editando(&self, id: &str) -> (r: bool)
        ensures
            r == (self@.editing_id == Some(id@)),
    {
        match &self.editing_id {
            Some(e) => {
                let target = id.to_string();
                *e == target
            },
            None => false,
        }
    }
}

/// The new-entry form and an in-place edit are never open at once.
pub open spec fn one_form(p: PantallaView) -> bool {
    !(p.form_open && p.editing_id is Some)
}

/// Every action keeps the new-entry form and the in-place edit apart, and
/// picking a character always opens its page clean.
pub proof fn lemma_one_form_at_a_time(p: PantallaView, a: Accion)
    requires
        one_form(p),
    ensures
        one_form(step(p, a)),
        a is Seleccionar ==> !step(p, a).form_open && step(p, a).editing_id is None
            && !step(p, a).team_editor_open && step(p, a).filtro is None && step(p, a).busqueda.len()
            == 0,
{
}

} // verus!
