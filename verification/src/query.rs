//! The query engine: level, ritual, school and class-exclusion filters
//! over one class's spells, the flat or level-grouped line rendering, and
//! the fixed-size pagination.

use vstd::prelude::*;
use vstd::string::StringExecFns;
use crate::data::{Spell, SpellV};
use crate::index::{map_get, IndexV, SpellMap};
use crate::outside::{lower_of, push_char, to_lowercase};
use crate::schools::SpellSchool;
use crate::text::{dec_chars, fmt_u64, lemma_views_of_add, lemma_views_of_push, lex_le, str_eq, str_le, views_of};

verus! {

/// The number of lines on one page.
pub const PAGE_LINES: usize = 20;

/// Whether a class name stands in the exclusion set; class names are
/// case-insensitive, so membership is over the case-folded forms.
pub open spec fn excluded(not_classes: Seq<Seq<char>>, c: Seq<char>) -> bool {
    exists|k: int| 0 <= k < not_classes.len() && lower_of(#[trigger] not_classes[k]) == lower_of(c)
}

/// Whether a spell passes the query filters: the ritual flag, the
/// inclusive level range (each bound independently optional), the school
/// set (empty means no filter), and the class exclusion (a spell is
/// dropped when any of its classes matches an excluded name
/// case-insensitively).
pub open spec fn passes(
    s: SpellV,
    min: Option<u8>,
    max: Option<u8>,
    ritual: bool,
    schools: Seq<SpellSchool>,
    not_classes: Seq<Seq<char>>,
) -> bool {
    &&& (!ritual || s.ritual)
    &&& (match min {
        Some(m) => s.level >= m,
        None => true,
    })
    &&& (match max {
        Some(m) => s.level <= m,
        None => true,
    })
    &&& (not_classes.len() == 0 || !(exists|i: int|
        0 <= i < s.classes.len() && excluded(not_classes, #[trigger] s.classes[i])))
    &&& (schools.len() == 0 || schools.contains(s.school))
}

/// The spells that pass the filters, in order.
pub open spec fn filtered(
    ss: Seq<SpellV>,
    min: Option<u8>,
    max: Option<u8>,
    ritual: bool,
    schools: Seq<SpellSchool>,
    not_classes: Seq<Seq<char>>,
) -> Seq<SpellV>
    decreases ss.len(),
{
    if ss.len() == 0 {
        seq![]
    } else {
        filtered(ss.drop_last(), min, max, ritual, schools, not_classes) + (if passes(
            ss.last(),
            min,
            max,
            ritual,
            schools,
            not_classes,
        ) {
            seq![ss.last()]
        } else {
            seq![]
        })
    }
}

/// Every spell of a filtered sequence passes the filters; in particular,
/// when both level bounds are set, every returned spell's level lies in
/// the inclusive range.
pub proof fn lemma_filtered_passes(
    ss: Seq<SpellV>,
    min: Option<u8>,
    max: Option<u8>,
    ritual: bool,
    schools: Seq<SpellSchool>,
    not_classes: Seq<Seq<char>>,
)
    ensures
        forall|j: int|
            0 <= j < filtered(ss, min, max, ritual, schools, not_classes).len() ==> passes(
                #[trigger] filtered(ss, min, max, ritual, schools, not_classes)[j],
                min,
                max,
                ritual,
                schools,
                not_classes,
            ),
        forall|j: int|
            0 <= j < filtered(ss, min, max, ritual, schools, not_classes).len() && min is Some
                && max is Some ==> min->0 <= (#[trigger] filtered(
                ss,
                min,
                max,
                ritual,
                schools,
                not_classes,
            )[j]).level <= max->0,
    decreases ss.len(),
{
    if ss.len() > 0 {
        lemma_filtered_passes(ss.drop_last(), min, max, ritual, schools, not_classes);
    }
}

/// The views of a sequence of spell references.
pub open spec fn ref_views(v: Seq<&Spell>) -> Seq<SpellV> {
    v.map_values(|x: &Spell| x@)
}

/// Whether a school of `v` equals `s`.
fn contains_school(v: &Vec<SpellSchool>, s: SpellSchool) -> (r: bool)
    ensures
        r == v@.contains(s),
{
    let n = v.len();
    let mut i: usize = 0;
    while i < n
        invariant
            i <= n,
            n == v@.len(),
            forall|j: int| 0 <= j < i ==> v@[j] != s,
        decreases n - i,
    {
        if v[i] == s {
            return true;
        }
        i = i + 1;
    }
    false
}

/// Whether `s` matches a string of `v` case-insensitively.
fn contains_name_folded(v: &Vec<String>, s: &str) -> (r: bool)
    ensures
        r == excluded(views_of(v@), s@),
{
    let ls = to_lowercase(s);
    let n = v.len();
    let mut i: usize = 0;
    while i < n
        invariant
            i <= n,
            n == v@.len(),
            ls@ == lower_of(s@),
            forall|j: int| 0 <= j < i ==> lower_of(#[trigger] views_of(v@)[j]) != lower_of(s@),
        decreases n - i,
    {
        if str_eq(to_lowercase(v[i].as_str()).as_str(), ls.as_str()) {
            proof {
                assert(lower_of(views_of(v@)[i as int]) == lower_of(s@));
            }
            return true;
        }
        proof {
            assert(views_of(v@)[i as int] == v@[i as int]@);
        }
        i = i + 1;
    }
    proof {
        if excluded(views_of(v@), s@) {
            let k = choose|k: int|
                0 <= k < views_of(v@).len() && lower_of(#[trigger] views_of(v@)[k]) == lower_of(
                    s@,
                );
        }
    }
    false
}

/// Whether one of the spell's classes is excluded, case-insensitively.
fn any_class_excluded(s: &Spell, not_classes: &Vec<String>) -> (r: bool)
    ensures
        r == exists|i: int|
            0 <= i < s@.classes.len() && excluded(views_of(not_classes@), #[trigger] s@.classes[i]),
{
    let n = s.classes.len();
    let mut i: usize = 0;
    while i < n
        invariant
            i <= n,
            n == s.classes@.len(),
            forall|j: int|
                0 <= j < i ==> !excluded(views_of(not_classes@), #[trigger] s@.classes[j]),
        decreases n - i,
    {
        if contains_name_folded(not_classes, s.classes[i].as_str()) {
            proof {
                assert(s@.classes[i as int] == s.classes@[i as int]@);
            }
            return true;
        }
        proof {
            assert(s@.classes[i as int] == s.classes@[i as int]@);
        }
        i = i + 1;
    }
    false
}

/// Whether a spell passes the filters.
fn passes_exec(
    s: &Spell,
    min: Option<u8>,
    max: Option<u8>,
    ritual: bool,
    schools: &Vec<SpellSchool>,
    not_classes: &Vec<String>,
) -> (r: bool)
    ensures
        r == passes(s@, min, max, ritual, schools@, views_of(not_classes@)),
{
    if ritual && !s.ritual {
        return false;
    }
    match min {
        Some(m) => if s.level < m {
            return false;
        },
        None => {},
    }
    match max {
        Some(m) => if s.level > m {
            return false;
        },
        None => {},
    }
    if not_classes.len() > 0 && any_class_excluded(s, not_classes) {
        return false;
    }
    proof {
        assert(views_of(not_classes@).len() == not_classes@.len());
    }
    if schools.len() > 0 && !contains_school(schools, s.school) {
        return false;
    }
    true
}

/// The spells that pass the filters, in order.
pub fn filter_spells<'a>(
    spells: &Vec<&'a Spell>,
    min: Option<u8>,
    max: Option<u8>,
    ritual: bool,
    schools: &Vec<SpellSchool>,
    not_classes: &Vec<String>,
) -> (r: Vec<&'a Spell>)
    ensures
        ref_views(r@) == filtered(
            ref_views(spells@),
            min,
            max,
            ritual,
            schools@,
            views_of(not_classes@),
        ),
{
    let ghost svs = ref_views(spells@);
    let ghost ncs = views_of(not_classes@);
    let mut r: Vec<&'a Spell> = Vec::new();
    let n = spells.len();
    proof {
        assert(svs.take(0) =~= Seq::<SpellV>::empty());
        assert(ref_views(r@) =~= filtered(svs.take(0), min, max, ritual, schools@, ncs));
    }
    let mut i: usize = 0;
    while i < n
        invariant
            i <= n,
            n == spells@.len(),
            svs == ref_views(spells@),
            ncs == views_of(not_classes@),
            ref_views(r@) == filtered(svs.take(i as int), min, max, ritual, schools@, ncs),
        decreases n - i,
    {
        proof {
            assert(svs.take(i + 1).drop_last() =~= svs.take(i as int));
            assert(svs.take(i + 1).last() == svs[i as int]);
            assert(svs[i as int] == spells@[i as int]@);
        }
        let s = spells[i];
        if passes_exec(s, min, max, ritual, schools, not_classes) {
            let ghost r0 = r@;
            r.push(s);
            proof {
                assert(ref_views(r@).len() == r0.len() + 1);
                assert forall|j: int| 0 <= j < r0.len() + 1 implies ref_views(r@)[j] == ref_views(
                    r0,
                ).push(svs[i as int])[j] by {
                    assert(ref_views(r@)[j] == r@[j]@);
                    if j < r0.len() {
                        assert(r@[j] == r0[j]);
                        assert(ref_views(r0)[j] == r0[j]@);
                    } else {
                        assert(r@[j] == s);
                    }
                }
                assert(ref_views(r@) =~= ref_views(r0).push(svs[i as int]));
                assert(ref_views(r@) =~= filtered(svs.take(i + 1), min, max, ritual, schools@, ncs));
            }
        } else {
            proof {
                assert(ref_views(r@) =~= filtered(svs.take(i + 1), min, max, ritual, schools@, ncs));
            }
        }
        i = i + 1;
    }
    proof {
        assert(svs.take(n as int) =~= svs);
    }
    r
}

/// The names of the spells, in order.
pub open spec fn names_of(ss: Seq<SpellV>) -> Seq<Seq<char>> {
    ss.map_values(|s: SpellV| s.name)
}

/// A name placed before the first name that orders after it.
pub open spec fn insert_name(acc: Seq<Seq<char>>, x: Seq<char>) -> Seq<Seq<char>>
    decreases acc.len(),
{
    if acc.len() == 0 {
        seq![x]
    } else if lex_le(acc[0], x) {
        seq![acc[0]] + insert_name(acc.drop_first(), x)
    } else {
        seq![x] + acc
    }
}

/// The names sorted by insertion, in order of arrival.
pub open spec fn sort_names(names: Seq<Seq<char>>) -> Seq<Seq<char>>
    decreases names.len(),
{
    if names.len() == 0 {
        seq![]
    } else {
        insert_name(sort_names(names.drop_last()), names.last())
    }
}

/// `insert_name` is insertion at the first position that orders after.
proof fn lemma_insert_name_at(acc: Seq<Seq<char>>, x: Seq<char>, pos: int)
    requires
        0 <= pos <= acc.len(),
        forall|j: int| 0 <= j < pos ==> lex_le(#[trigger] acc[j], x),
        pos == acc.len() || !lex_le(acc[pos], x),
    ensures
        insert_name(acc, x) == acc.insert(pos, x),
    decreases pos,
{
    if pos == 0 {
        assert(insert_name(acc, x) =~= acc.insert(0, x));
    } else {
        assert(lex_le(acc[0], x));
        lemma_insert_name_at(acc.drop_first(), x, pos - 1);
        assert(insert_name(acc, x) =~= acc.insert(pos, x));
    }
}

/// The first position whose name orders after `name`.
fn find_name_pos(acc: &Vec<String>, name: &str) -> (pos: usize)
    ensures
        pos <= acc@.len(),
        forall|j: int| 0 <= j < pos ==> lex_le(#[trigger] views_of(acc@)[j], name@),
        pos < acc@.len() ==> !lex_le(views_of(acc@)[pos as int], name@),
{
    let n = acc.len();
    let mut i: usize = 0;
    while i < n
        invariant
            i <= n,
            n == acc@.len(),
            forall|j: int| 0 <= j < i ==> lex_le(#[trigger] views_of(acc@)[j], name@),
        decreases n - i,
    {
        if !str_le(acc[i].as_str(), name) {
            proof {
                assert(views_of(acc@)[i as int] == acc@[i as int]@);
            }
            return i;
        }
        proof {
            assert(views_of(acc@)[i as int] == acc@[i as int]@);
        }
        i = i + 1;
    }
    n
}

/// The names sorted lexicographically.
pub fn sort_names_exec(names: &Vec<String>) -> (r: Vec<String>)
    ensures
        views_of(r@) == sort_names(views_of(names@)),
{
    let ghost nvs = views_of(names@);
    let mut r: Vec<String> = Vec::new();
    let n = names.len();
    proof {
        assert(nvs.take(0) =~= Seq::<Seq<char>>::empty());
        assert(views_of(r@) =~= sort_names(nvs.take(0)));
    }
    let mut i: usize = 0;
    while i < n
        invariant
            i <= n,
            n == names@.len(),
            nvs == views_of(names@),
            views_of(r@) == sort_names(nvs.take(i as int)),
        decreases n - i,
    {
        proof {
            assert(nvs.take(i + 1).drop_last() =~= nvs.take(i as int));
            assert(nvs.take(i + 1).last() == nvs[i as int]);
            assert(nvs[i as int] == names@[i as int]@);
        }
        let x = names[i].clone();
        let pos = find_name_pos(&r, x.as_str());
        let ghost r0 = r@;
        r.insert(pos, x);
        proof {
            lemma_insert_name_at(views_of(r0), nvs[i as int], pos as int);
            assert(views_of(r@).len() == r0.len() + 1);
            assert forall|j: int| 0 <= j < r0.len() + 1 implies views_of(r@)[j] == views_of(
                r0,
            ).insert(pos as int, nvs[i as int])[j] by {
                assert(views_of(r@)[j] == r@[j]@);
                if j < pos {
                    assert(r@[j] == r0[j]);
                    assert(views_of(r0)[j] == r0[j]@);
                } else if j == pos {
                    assert(r@[j] == x);
                } else {
                    assert(r@[j] == r0[j - 1]);
                    assert(views_of(r0)[j - 1] == r0[j - 1]@);
                }
            }
            assert(views_of(r@) =~= views_of(r0).insert(pos as int, nvs[i as int]));
            assert(views_of(r@) =~= sort_names(nvs.take(i + 1)));
        }
        i = i + 1;
    }
    proof {
        assert(nvs.take(n as int) =~= nvs);
    }
    r
}

/// The names of the spells, in order.
fn collect_names(spells: &Vec<&Spell>) -> (r: Vec<String>)
    ensures
        views_of(r@) == names_of(ref_views(spells@)),
{
    let mut r: Vec<String> = Vec::new();
    let n = spells.len();
    let mut i: usize = 0;
    while i < n
        invariant
            i <= n,
            n == spells@.len(),
            r@.len() == i,
            forall|j: int| 0 <= j < i ==> (#[trigger] r@[j])@ == spells@[j]@.name,
        decreases n - i,
    {
        r.push(spells[i].name.clone());
        i = i + 1;
    }
    proof {
        let target = names_of(ref_views(spells@));
        assert(views_of(r@).len() == target.len());
        assert forall|j: int| 0 <= j < target.len() implies views_of(r@)[j] == target[j] by {
            assert(views_of(r@)[j] == r@[j]@);
            assert(ref_views(spells@)[j] == spells@[j]@);
        }
        assert(views_of(r@) =~= target);
    }
    r
}

/// The names of the spells of one level, in order.
pub open spec fn names_at_level(ss: Seq<SpellV>, l: u8) -> Seq<Seq<char>>
    decreases ss.len(),
{
    if ss.len() == 0 {
        seq![]
    } else {
        names_at_level(ss.drop_last(), l) + (if ss.last().level == l {
            seq![ss.last().name]
        } else {
            seq![]
        })
    }
}

/// The header line above one level's names.
pub open spec fn level_header(l: int) -> Seq<char> {
    "**Level "@ + dec_chars(l as nat) + " spells**"@
}

/// The grouped rendering from level `l` up: per level with any spells, a
/// header line and the level's names sorted, levels ascending.
pub open spec fn level_lines(ss: Seq<SpellV>, l: int) -> Seq<Seq<char>>
    decreases 256 - l,
{
    if l < 0 || l >= 256 {
        seq![]
    } else {
        (if names_at_level(ss, l as u8).len() > 0 {
            seq![level_header(l)] + sort_names(names_at_level(ss, l as u8))
        } else {
            seq![]
        }) + level_lines(ss, l + 1)
    }
}

/// The grouped rendering of the levels below `l`.
spec fn lines_below(ss: Seq<SpellV>, l: int) -> Seq<Seq<char>>
    decreases l,
{
    if l <= 0 {
        seq![]
    } else {
        lines_below(ss, l - 1) + (if names_at_level(ss, (l - 1) as u8).len() > 0 {
            seq![level_header(l - 1)] + sort_names(names_at_level(ss, (l - 1) as u8))
        } else {
            seq![]
        })
    }
}

/// The whole grouped rendering splits at any level.
proof fn lemma_lines_split(ss: Seq<SpellV>, l: int)
    requires
        0 <= l <= 256,
    ensures
        level_lines(ss, 0) == lines_below(ss, l) + level_lines(ss, l),
    decreases l,
{
    if l == 0 {
        assert(level_lines(ss, 0) =~= lines_below(ss, 0) + level_lines(ss, 0));
    } else {
        lemma_lines_split(ss, l - 1);
        assert(level_lines(ss, l - 1) == (if names_at_level(ss, (l - 1) as u8).len() > 0 {
            seq![level_header(l - 1)] + sort_names(names_at_level(ss, (l - 1) as u8))
        } else {
            seq![]
        }) + level_lines(ss, l));
        assert(level_lines(ss, 0) =~= lines_below(ss, l) + level_lines(ss, l));
    }
}

/// The header line above one level's names.
fn level_header_exec(l: u8) -> (r: String)
    ensures
        r@ == level_header(l as int),
{
    let mut r = "**Level ".to_owned();
    r.append(fmt_u64(l as u64).as_str());
    r.append(" spells**");
    proof {
        assert(r@ =~= level_header(l as int));
    }
    r
}

/// The names of the spells of one level.
fn collect_level_names(spells: &Vec<&Spell>, l: u8) -> (r: Vec<String>)
    ensures
        views_of(r@) == names_at_level(ref_views(spells@), l),
{
    let ghost svs = ref_views(spells@);
    let mut r: Vec<String> = Vec::new();
    let n = spells.len();
    proof {
        assert(svs.take(0) =~= Seq::<SpellV>::empty());
        assert(views_of(r@) =~= names_at_level(svs.take(0), l));
    }
    let mut i: usize = 0;
    while i < n
        invariant
            i <= n,
            n == spells@.len(),
            svs == ref_views(spells@),
            views_of(r@) == names_at_level(svs.take(i as int), l),
        decreases n - i,
    {
        proof {
            assert(svs.take(i + 1).drop_last() =~= svs.take(i as int));
            assert(svs.take(i + 1).last() == svs[i as int]);
            assert(svs[i as int] == spells@[i as int]@);
        }
        if spells[i].level == l {
            let ghost r0 = r@;
            let nm = spells[i].name.clone();
            r.push(nm);
            proof {
                lemma_views_of_push(r0, nm);
                assert(views_of(r@) =~= names_at_level(svs.take(i + 1), l));
            }
        } else {
            proof {
                assert(views_of(r@) =~= names_at_level(svs.take(i + 1), l));
            }
        }
        i = i + 1;
    }
    proof {
        assert(svs.take(n as int) =~= svs);
    }
    r
}

/// The level-grouped rendering: levels ascending, a header line per level
/// that has spells, the level's names sorted beneath it.
pub fn grouped_lines(spells: &Vec<&Spell>) -> (r: Vec<String>)
    ensures
        views_of(r@) == level_lines(ref_views(spells@), 0),
{
    let ghost svs = ref_views(spells@);
    let mut r: Vec<String> = Vec::new();
    proof {
        assert(views_of(r@) =~= lines_below(svs, 0));
    }
    let mut l: u16 = 0;
    while l < 256
        invariant
            l <= 256,
            svs == ref_views(spells@),
            views_of(r@) == lines_below(svs, l as int),
        decreases 256 - l,
    {
        let names = collect_level_names(spells, l as u8);
        let sorted = sort_names_exec(&names);
        if sorted.len() > 0 {
            let ghost r0 = r@;
            let hd = level_header_exec(l as u8);
            r.push(hd);
            proof {
                lemma_views_of_push(r0, hd);
            }
            let ghost r1 = r@;
            let mut sorted_mut = sorted;
            let ghost sv = sorted_mut@;
            r.append(&mut sorted_mut);
            proof {
                assert(r@ == r1 + sv);
                lemma_views_of_add(r1, sv);
                assert(views_of(sv).len() > 0);
                assert(views_of(r@) =~= lines_below(svs, l + 1));
            }
        } else {
            proof {
                assert(views_of(sorted@).len() == 0);
                assert(sort_names(names_at_level(svs, l as u8)).len() == 0);
                assert(views_of(r@) =~= lines_below(svs, l + 1));
            }
        }
        l = l + 1;
    }
    proof {
        lemma_lines_split(svs, 256);
        assert(level_lines(svs, 256) =~= Seq::<Seq<char>>::empty());
        assert(views_of(r@) =~= level_lines(svs, 0));
    }
    r
}

/// The lines cut into pages of at most `PAGE_LINES` lines; an empty line
/// sequence still yields one (empty) page.
pub open spec fn chunks(lines: Seq<Seq<char>>) -> Seq<Seq<Seq<char>>>
    decreases lines.len(),
{
    if lines.len() <= 20 {
        seq![lines]
    } else {
        seq![lines.take(20)] + chunks(lines.skip(20))
    }
}

/// The page views of a vector of pages.
pub open spec fn page_views(v: Seq<Vec<String>>) -> Seq<Seq<Seq<char>>> {
    v.map_values(|p: Vec<String>| views_of(p@))
}

/// For `n` lines there are `max(1, ceil(n / 20))` pages, and the pages
/// concatenated reproduce the lines exactly.
pub proof fn lemma_pagination(lines: Seq<Seq<char>>)
    ensures
        chunks(lines).len() == if lines.len() == 0 {
            1int
        } else {
            (lines.len() + 19) as int / 20
        },
        chunks(lines).len() >= 1,
        chunks(lines).flatten() == lines,
    decreases lines.len(),
{
    if lines.len() <= 20 {
        assert(chunks(lines) == seq![lines]);
        assert(chunks(lines).drop_first() =~= Seq::<Seq<Seq<char>>>::empty());
        assert(chunks(lines).drop_first().flatten() == Seq::<Seq<char>>::empty());
        assert(chunks(lines).first() == lines);
        assert(chunks(lines).flatten() == lines + chunks(lines).drop_first().flatten());
        assert(chunks(lines).flatten() =~= lines);
    } else {
        lemma_pagination(lines.skip(20));
        let c = chunks(lines);
        assert(c.first() == lines.take(20));
        assert(c.drop_first() =~= chunks(lines.skip(20)));
        assert(c.flatten() == lines.take(20) + chunks(lines.skip(20)).flatten());
        assert(c.flatten() =~= lines);
    }
}

/// The lines cut into pages of at most `PAGE_LINES` lines each.
pub fn paginate(lines: Vec<String>) -> (r: Vec<Vec<String>>)
    ensures
        page_views(r@) == chunks(views_of(lines@)),
    decreases lines@.len(),
{
    let n = lines.len();
    if n <= PAGE_LINES {
        let mut r: Vec<Vec<String>> = Vec::new();
        let ghost lv = views_of(lines@);
        r.push(lines);
        proof {
            assert(page_views(r@) =~= seq![lv]);
        }
        r
    } else {
        let mut head = lines;
        let tail = head.split_off(PAGE_LINES);
        let ghost hv = views_of(head@);
        let ghost tv = views_of(tail@);
        proof {
            assert forall|j: int| 0 <= j < 20 implies hv[j] == views_of(lines@).take(20)[j] by {
                assert(hv[j] == head@[j]@);
                assert(views_of(lines@)[j] == lines@[j]@);
            }
            assert(hv =~= views_of(lines@).take(20));
            assert forall|j: int| 0 <= j < tv.len() implies tv[j] == views_of(lines@).skip(
                20,
            )[j] by {
                assert(tv[j] == tail@[j]@);
                assert(views_of(lines@)[j + 20] == lines@[j + 20]@);
            }
            assert(tv =~= views_of(lines@).skip(20));
        }
        let mut rest = paginate(tail);
        let ghost rv = rest@;
        rest.insert(0, head);
        proof {
            assert(rest@ == rv.insert(0, head));
            assert(page_views(rest@).len() == rv.len() + 1);
            assert forall|j: int| 0 <= j < rv.len() + 1 implies page_views(rest@)[j] == (seq![hv]
                + page_views(rv))[j] by {
                assert(page_views(rest@)[j] == views_of(rest@[j]@));
                if j > 0 {
                    assert(rest@[j] == rv[j - 1]);
                    assert(page_views(rv)[j - 1] == views_of(rv[j - 1]@));
                } else {
                    assert(rest@[0] == head);
                }
            }
            assert(page_views(rest@) =~= seq![hv] + page_views(rv));
            assert(page_views(rest@) =~= chunks(views_of(lines@)));
        }
        rest
    }
}

/// The lines of one page joined by newlines.
pub open spec fn joined(lines: Seq<Seq<char>>) -> Seq<char>
    decreases lines.len(),
{
    if lines.len() == 0 {
        seq![]
    } else if lines.len() == 1 {
        lines[0]
    } else {
        joined(lines.drop_last()) + seq!['\n'] + lines.last()
    }
}

/// One page rendered: its lines joined by newlines.
pub fn join_lines(lines: &Vec<String>) -> (r: String)
    ensures
        r@ == joined(views_of(lines@)),
{
    let ghost lv = views_of(lines@);
    let mut r = String::new();
    let n = lines.len();
    proof {
        assert(lv.take(0) =~= Seq::<Seq<char>>::empty());
        assert(r@ =~= joined(lv.take(0)));
    }
    let mut i: usize = 0;
    while i < n
        invariant
            i <= n,
            n == lines@.len(),
            lv == views_of(lines@),
            r@ == joined(lv.take(i as int)),
        decreases n - i,
    {
        proof {
            assert(lv.take(i + 1).drop_last() =~= lv.take(i as int));
            assert(lv.take(i + 1).last() == lv[i as int]);
            assert(lv[i as int] == lines@[i as int]@);
        }
        if i > 0 {
            push_char(&mut r, '\n');
        }
        r.append(lines[i].as_str());
        proof {
            if i == 0 {
                assert(lv.take(1).len() == 1);
                assert(lv.take(1)[0] == lv[0]);
                assert(r@ =~= joined(lv.take(1)));
            } else {
                assert(r@ =~= joined(lv.take(i as int)) + seq!['\n'] + lv[i as int]);
                assert(r@ =~= joined(lv.take(i + 1)));
            }
        }
        i = i + 1;
    }
    proof {
        assert(lv.take(n as int) =~= lv);
    }
    r
}

/// The numeric value of a level argument, when it is all digits and fits.
pub open spec fn u8_of(s: Seq<char>) -> Option<u8> {
    if s.len() > 0 && crate::text::all_digits(s) && crate::text::digits_val(s) <= 255 {
        Some(crate::text::digits_val(s) as u8)
    } else {
        None
    }
}

/// The level range a textual argument denotes: two bounds split at a
/// dash, or one level standing for both bounds.
pub open spec fn level_range_spec(s: Seq<char>) -> (Option<u8>, Option<u8>) {
    if crate::text::find_sep(s, "-"@) is Some {
        let parts = crate::text::split_chars(s, "-"@);
        (u8_of(parts[0]), u8_of(parts[1]))
    } else {
        (u8_of(s), u8_of(s))
    }
}

/// A split at a found separator has at least two parts.
proof fn lemma_split_two(s: Seq<char>, sep: Seq<char>)
    requires
        crate::text::find_sep(s, sep) is Some,
    ensures
        crate::text::split_chars(s, sep).len() >= 2,
        crate::text::split_chars(s, sep)[0] == s.subrange(
            0,
            crate::text::find_sep(s, sep)->0,
        ),
{
    crate::text::lemma_find_sep_bounds(s, sep);
    let k = crate::text::find_sep(s, sep)->0;
    let rest = s.subrange(k + sep.len(), s.len() as int);
    assert(crate::text::split_chars(s, sep) == seq![s.subrange(0, k)] + crate::text::split_chars(
        rest,
        sep,
    ));
    assert(crate::text::split_chars(rest, sep).len() >= 1);
}

/// Parses a level argument: `"3"` bounds both ends at three;
/// `"2-5"` bounds them separately; an unreadable bound is open.
pub fn parse_level_range(level: &str) -> (r: (Option<u8>, Option<u8>))
    ensures
        r == level_range_spec(level@),
{
    match crate::text::find_first(level, "-") {
        Some(_) => {
            proof {
                lemma_split_two(level@, "-"@);
            }
            let parts = crate::text::split_str(level, "-");
            proof {
                assert(views_of(parts@)[0] == parts@[0]@);
                assert(views_of(parts@)[1] == parts@[1]@);
            }
            let lo = parse_u8_opt(&parts[0]);
            let hi = parse_u8_opt(&parts[1]);
            (lo, hi)
        },
        None => {
            let p = parse_u8_opt_str(level);
            (p, p)
        },
    }
}

fn parse_u8_opt(s: &String) -> (r: Option<u8>)
    ensures
        r == u8_of(s@),
{
    parse_u8_opt_str(s.as_str())
}

fn parse_u8_opt_str(s: &str) -> (r: Option<u8>)
    ensures
        r == u8_of(s@),
{
    crate::text::parse_u8(s)
}

/// The level bounds a slash invocation resolves to: a sole minimum is
/// closed at nine, a sole maximum at zero; an exact level bounds both
/// ends; otherwise the bounds stand as given.
pub open spec fn resolve_spec(level: Option<u8>, min: Option<u8>, max: Option<u8>) -> (
    Option<u8>,
    Option<u8>,
) {
    if min is Some && max is None {
        (min, Some(9u8))
    } else if max is Some && min is None {
        (Some(0u8), max)
    } else if level is Some {
        (level, level)
    } else {
        (min, max)
    }
}

pub fn resolve_level_range(level: Option<u8>, min: Option<u8>, max: Option<u8>) -> (r: (
    Option<u8>,
    Option<u8>,
))
    ensures
        r == resolve_spec(level, min, max),
{
    if min.is_some() && max.is_none() {
        (min, Some(9))
    } else if max.is_some() && min.is_none() {
        (Some(0), max)
    } else if level.is_some() {
        (level, level)
    } else {
        (min, max)
    }
}

/// The flag a school is asked for by: two dashes and its lower-cased name.
pub open spec fn school_flag(sc: SpellSchool) -> Seq<char> {
    "--"@ + lower_of(sc.name_spec())
}

fn school_flag_exec(sc: SpellSchool) -> (r: String)
    ensures
        r@ == school_flag(sc),
{
    let mut r = "--".to_owned();
    r.append(to_lowercase(sc.name()).as_str());
    r
}

/// The school one argument asks for: the first school whose flag the
/// argument contains.
pub open spec fn arg_school(a: Seq<char>) -> Option<SpellSchool> {
    if crate::text::contains_seq(a, school_flag(SpellSchool::Abjuration)) {
        Some(SpellSchool::Abjuration)
    } else if crate::text::contains_seq(a, school_flag(SpellSchool::Conjuration)) {
        Some(SpellSchool::Conjuration)
    } else if crate::text::contains_seq(a, school_flag(SpellSchool::Divination)) {
        Some(SpellSchool::Divination)
    } else if crate::text::contains_seq(a, school_flag(SpellSchool::Enchantment)) {
        Some(SpellSchool::Enchantment)
    } else if crate::text::contains_seq(a, school_flag(SpellSchool::Evocation)) {
        Some(SpellSchool::Evocation)
    } else if crate::text::contains_seq(a, school_flag(SpellSchool::Illusion)) {
        Some(SpellSchool::Illusion)
    } else if crate::text::contains_seq(a, school_flag(SpellSchool::Necromancy)) {
        Some(SpellSchool::Necromancy)
    } else if crate::text::contains_seq(a, school_flag(SpellSchool::Transmutation)) {
        Some(SpellSchool::Transmutation)
    } else {
        None
    }
}

fn arg_school_exec(a: &str) -> (r: Option<SpellSchool>)
    ensures
        r == arg_school(a@),
{
    if crate::text::str_contains(a, school_flag_exec(SpellSchool::Abjuration).as_str()) {
        return Some(SpellSchool::Abjuration);
    }
    if crate::text::str_contains(a, school_flag_exec(SpellSchool::Conjuration).as_str()) {
        return Some(SpellSchool::Conjuration);
    }
    if crate::text::str_contains(a, school_flag_exec(SpellSchool::Divination).as_str()) {
        return Some(SpellSchool::Divination);
    }
    if crate::text::str_contains(a, school_flag_exec(SpellSchool::Enchantment).as_str()) {
        return Some(SpellSchool::Enchantment);
    }
    if crate::text::str_contains(a, school_flag_exec(SpellSchool::Evocation).as_str()) {
        return Some(SpellSchool::Evocation);
    }
    if crate::text::str_contains(a, school_flag_exec(SpellSchool::Illusion).as_str()) {
        return Some(SpellSchool::Illusion);
    }
    if crate::text::str_contains(a, school_flag_exec(SpellSchool::Necromancy).as_str()) {
        return Some(SpellSchool::Necromancy);
    }
    if crate::text::str_contains(a, school_flag_exec(SpellSchool::Transmutation).as_str()) {
        return Some(SpellSchool::Transmutation);
    }
    None
}

/// Whether some argument carries the ritual flag.
pub open spec fn args_ritual(parts: Seq<Seq<char>>) -> bool {
    exists|i: int| 0 <= i < parts.len() && crate::text::contains_seq(#[trigger] parts[i], "--ritual"@)
}

/// The schools the arguments ask for, in argument order.
pub open spec fn args_schools(parts: Seq<Seq<char>>) -> Seq<SpellSchool>
    decreases parts.len(),
{
    if parts.len() == 0 {
        seq![]
    } else {
        args_schools(parts.drop_last()) + (match arg_school(parts.last()) {
            Some(sc) => seq![sc],
            None => seq![],
        })
    }
}

/// What each argument contributes to the exclusion list: its last
/// bang-separated segment, lower-cased.
pub open spec fn args_not_classes(parts: Seq<Seq<char>>) -> Seq<Seq<char>> {
    parts.map_values(|a: Seq<char>| lower_of(crate::text::split_chars(a, "!"@).last()))
}

/// Parses the free-form argument tail of a prefix invocation, split at
/// spaces: the ritual flag, the school flags in order, and each
/// argument's exclusion contribution.
pub fn parse_args(args: &str) -> (r: (bool, Vec<SpellSchool>, Vec<String>))
    ensures
        ({
            let parts = crate::text::split_chars(args@, " "@);
            &&& r.0 == args_ritual(parts)
            &&& r.1@ == args_schools(parts)
            &&& views_of(r.2@) == args_not_classes(parts)
        }),
{
    let parts = crate::text::split_str(args, " ");
    let ghost pv = crate::text::split_chars(args@, " "@);
    let n = parts.len();
    proof {
        assert(pv == views_of(parts@));
    }
    let mut ritual = false;
    let mut schools: Vec<SpellSchool> = Vec::new();
    let mut ncs: Vec<String> = Vec::new();
    proof {
        assert(pv.take(0) =~= Seq::<Seq<char>>::empty());
        assert(schools@ =~= args_schools(pv.take(0)));
    }
    let mut i: usize = 0;
    while i < n
        invariant
            i <= n,
            n == parts@.len(),
            pv == views_of(parts@),
            pv.len() == n,
            ritual == exists|j: int|
                0 <= j < i && crate::text::contains_seq(#[trigger] pv[j], "--ritual"@),
            schools@ == args_schools(pv.take(i as int)),
            ncs@.len() == i,
            forall|j: int|
                0 <= j < i ==> (#[trigger] ncs@[j])@ == lower_of(
                    crate::text::split_chars(pv[j], "!"@).last(),
                ),
        decreases n - i,
    {
        proof {
            assert(pv.take(i + 1).drop_last() =~= pv.take(i as int));
            assert(pv.take(i + 1).last() == pv[i as int]);
            assert(pv[i as int] == parts@[i as int]@);
        }
        let part = &parts[i];
        if crate::text::str_contains(part.as_str(), "--ritual") {
            ritual = true;
        }
        match arg_school_exec(part.as_str()) {
            Some(sc) => {
                schools.push(sc);
                proof {
                    assert(schools@ =~= args_schools(pv.take(i + 1)));
                }
            },
            None => {
                proof {
                    assert(schools@ =~= args_schools(pv.take(i + 1)));
                }
            },
        }
        let segs = crate::text::split_str(part.as_str(), "!");
        proof {
            crate::text::lemma_find_sep_bounds(part@, "!"@);
            assert(views_of(segs@).len() >= 1);
        }
        let last = &segs[segs.len() - 1];
        proof {
            assert(views_of(segs@)[segs@.len() - 1] == segs@[segs@.len() - 1]@);
            assert(views_of(segs@).last() == crate::text::split_chars(part@, "!"@).last());
        }
        ncs.push(to_lowercase(last.as_str()));
        i = i + 1;
    }
    proof {
        assert(pv.take(n as int) =~= pv);
        let target = args_not_classes(pv);
        assert(views_of(ncs@).len() == target.len());
        assert forall|j: int| 0 <= j < target.len() implies views_of(ncs@)[j] == target[j] by {
            assert(views_of(ncs@)[j] == ncs@[j]@);
        }
        assert(views_of(ncs@) =~= target);
    }
    (ritual, schools, ncs)
}

/// The full query result: the class's spells filtered, rendered flat when
/// the level range names exactly one level and grouped by level otherwise,
/// and cut into pages joined by newlines. An unknown class yields the
/// empty rendering, not an error.
pub open spec fn spec_query(
    v: IndexV,
    class: Seq<char>,
    min: Option<u8>,
    max: Option<u8>,
    ritual: bool,
    schools: Seq<SpellSchool>,
    not_classes: Seq<Seq<char>>,
) -> Seq<Seq<char>> {
    let ss = match map_get(v.map, lower_of(class)) {
        Some(ps) => ps.map_values(|p: usize| v.spells[p as int]),
        None => seq![],
    };
    let kept = filtered(ss, min, max, ritual, schools, not_classes);
    let lines = if min is Some && min == max {
        sort_names(names_of(kept))
    } else {
        level_lines(kept, 0)
    };
    chunks(lines).map_values(|pg: Seq<Seq<char>>| joined(pg))
}

/// Runs one query against a built index and renders the pages.
pub fn query_pages(
    index: &SpellMap,
    class: &str,
    min: Option<u8>,
    max: Option<u8>,
    ritual: bool,
    schools: &Vec<SpellSchool>,
    not_classes: &Vec<String>,
) -> (r: Vec<String>)
    requires
        index.wf(),
    ensures
        views_of(r@) == spec_query(
            index@,
            class@,
            min,
            max,
            ritual,
            schools@,
            views_of(not_classes@),
        ),
{
    let key = to_lowercase(class);
    let ghost ssv = match map_get(index@.map, lower_of(class@)) {
        Some(ps) => ps.map_values(|p: usize| index@.spells[p as int]),
        None => seq![],
    };
    let spells: Vec<&Spell> = match index.get_spells(&key) {
        Some(v) => {
            proof {
                assert forall|j: int| 0 <= j < v@.len() implies ref_views(v@)[j] == ssv[j] by {
                    assert(ref_views(v@)[j] == v@[j]@);
                }
                assert(ref_views(v@) =~= ssv);
            }
            v
        },
        None => {
            let v: Vec<&Spell> = Vec::new();
            proof {
                assert(ref_views(v@) =~= ssv);
            }
            v
        },
    };
    let kept = filter_spells(&spells, min, max, ritual, schools, not_classes);
    let single = match (min, max) {
        (Some(a), Some(b)) => a == b,
        _ => false,
    };
    let lines: Vec<String> = if single {
        let names = collect_names(&kept);
        sort_names_exec(&names)
    } else {
        grouped_lines(&kept)
    };
    let ghost linesv = views_of(lines@);
    let pages = paginate(lines);
    let ghost pv = page_views(pages@);
    let mut r: Vec<String> = Vec::new();
    let n = pages.len();
    let mut i: usize = 0;
    while i < n
        invariant
            i <= n,
            n == pages@.len(),
            pv == page_views(pages@),
            r@.len() == i,
            forall|j: int| 0 <= j < i ==> (#[trigger] r@[j])@ == joined(pv[j]),
        decreases n - i,
    {
        let page = join_lines(&pages[i]);
        r.push(page);
        proof {
            assert(pv[i as int] == views_of(pages@[i as int]@));
        }
        i = i + 1;
    }
    proof {
        let target = chunks(linesv).map_values(|pg: Seq<Seq<char>>| joined(pg));
        assert(views_of(r@).len() == target.len());
        assert forall|j: int| 0 <= j < target.len() implies views_of(r@)[j] == target[j] by {
            assert(views_of(r@)[j] == r@[j]@);
        }
        assert(views_of(r@) =~= target);
    }
    r
}

} // verus!
