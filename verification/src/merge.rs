//! Building a tenant's index from normalized collections: the merged
//! supplemental lists (later source wins), the name-deduplicated and
//! name-sorted spell sequence (first occurrence wins), class resolution
//! from the lists, the class-name normalization table, and the fold into
//! the class-keyed index.

use vstd::prelude::*;
use crate::data::{clone_strings, collection_views, lemma_lists_views_push, lemma_lists_views_update, lemma_spell_views_insert, lemma_spell_views_push, lists_views, spell_views, CollectionV, Spell, SpellCollection, SpellLists, SpellV};
use crate::index::{spec_add, IndexV, SpellMap};
use crate::text::{is_blank, lemma_views_of_add, lemma_views_of_push, lex_le, starts_with_spec, str_eq, str_le, str_starts_with, views_of};

verus! {

/// All spells of all collections, in collection order.
pub open spec fn all_spells_of(cols: Seq<CollectionV>) -> Seq<SpellV>
    decreases cols.len(),
{
    if cols.len() == 0 {
        seq![]
    } else {
        all_spells_of(cols.drop_last()) + cols.last().spells
    }
}

/// The value of list `k` replaced in place, or a new entry appended.
pub open spec fn upsert_list(
    acc: Seq<(Seq<char>, Seq<Seq<char>>)>,
    k: Seq<char>,
    v: Seq<Seq<char>>,
) -> Seq<(Seq<char>, Seq<Seq<char>>)>
    decreases acc.len(),
{
    if acc.len() == 0 {
        seq![(k, v)]
    } else if acc[0].0 == k {
        seq![(k, v)] + acc.drop_first()
    } else {
        seq![acc[0]] + upsert_list(acc.drop_first(), k, v)
    }
}

/// Entries folded into `acc` in order; a later entry replaces an earlier
/// one with the same list name.
pub open spec fn merge_entries(
    acc: Seq<(Seq<char>, Seq<Seq<char>>)>,
    entries: Seq<(Seq<char>, Seq<Seq<char>>)>,
) -> Seq<(Seq<char>, Seq<Seq<char>>)>
    decreases entries.len(),
{
    if entries.len() == 0 {
        acc
    } else {
        upsert_list(
            merge_entries(acc, entries.drop_last()),
            entries.last().0,
            entries.last().1,
        )
    }
}

/// The supplemental lists of all collections merged into one lookup; on a
/// name collision the later collection wins.
pub open spec fn merged_lists(cols: Seq<CollectionV>) -> Seq<(Seq<char>, Seq<Seq<char>>)>
    decreases cols.len(),
{
    if cols.len() == 0 {
        seq![]
    } else {
        merge_entries(merged_lists(cols.drop_last()), cols.last().spell_lists)
    }
}

/// Whether some spell of `s` is named `n`.
pub open spec fn has_name(s: Seq<SpellV>, n: Seq<char>) -> bool {
    exists|i: int| 0 <= i < s.len() && (#[trigger] s[i]).name == n
}

/// The first spell of `s` named `n`.
pub open spec fn first_with_name(s: Seq<SpellV>, n: Seq<char>) -> SpellV
    decreases s.len(),
{
    if s.len() == 0 {
        arbitrary()
    } else if s[0].name == n {
        s[0]
    } else {
        first_with_name(s.drop_first(), n)
    }
}

/// `s` placed before the first element whose name orders after it.
pub open spec fn insert_sorted(acc: Seq<SpellV>, s: SpellV) -> Seq<SpellV>
    decreases acc.len(),
{
    if acc.len() == 0 {
        seq![s]
    } else if lex_le(acc[0].name, s.name) {
        seq![acc[0]] + insert_sorted(acc.drop_first(), s)
    } else {
        seq![s] + acc
    }
}

/// The spells merged in order: the first spell of each name survives and
/// stands at its name-sorted position.
pub open spec fn merge_spells(spells: Seq<SpellV>) -> Seq<SpellV>
    decreases spells.len(),
{
    if spells.len() == 0 {
        seq![]
    } else {
        let acc = merge_spells(spells.drop_last());
        let s = spells.last();
        if has_name(acc, s.name) {
            acc
        } else {
            insert_sorted(acc, s)
        }
    }
}

/// The names of every list, in order, whose members include `name`.
pub open spec fn classes_from_lists(
    lists: Seq<(Seq<char>, Seq<Seq<char>>)>,
    name: Seq<char>,
) -> Seq<Seq<char>>
    decreases lists.len(),
{
    if lists.len() == 0 {
        seq![]
    } else {
        classes_from_lists(lists.drop_last(), name) + (if lists.last().1.contains(name) {
            seq![lists.last().0]
        } else {
            seq![]
        })
    }
}

/// The views of a sequence of string pairs.
pub open spec fn pairs_views(v: Seq<(String, String)>) -> Seq<(Seq<char>, Seq<char>)> {
    v.map_values(|p: (String, String)| (p.0@, p.1@))
}

/// A class name replaced by the first matching row of the normalization
/// table, or kept.
pub open spec fn normalize_class(table: Seq<(Seq<char>, Seq<char>)>, c: Seq<char>) -> Seq<char>
    decreases table.len(),
{
    if table.len() == 0 {
        c
    } else if table[0].0 == c {
        table[0].1
    } else {
        normalize_class(table.drop_first(), c)
    }
}

/// A spell after the merge: its classes extended by every supplemental
/// list that holds its name, each class then run through the table.
pub open spec fn finish_spell(
    s: SpellV,
    lists: Seq<(Seq<char>, Seq<Seq<char>>)>,
    table: Seq<(Seq<char>, Seq<char>)>,
) -> SpellV {
    SpellV {
        name: s.name,
        level: s.level,
        school: s.school,
        classes: (s.classes + classes_from_lists(lists, s.name)).map_values(
            |c: Seq<char>| normalize_class(table, c),
        ),
        description: s.description,
        ritual: s.ritual,
    }
}

/// Spells folded into an index in order.
pub open spec fn add_all(v: IndexV, ss: Seq<SpellV>) -> IndexV
    decreases ss.len(),
{
    if ss.len() == 0 {
        v
    } else {
        spec_add(add_all(v, ss.drop_last()), ss.last())
    }
}

/// The whole build: merge the lists, deduplicate and sort the spells,
/// resolve and normalize each survivor's classes, and index the result.
pub open spec fn spec_build(cols: Seq<CollectionV>, table: Seq<(Seq<char>, Seq<char>)>) -> IndexV {
    let lists = merged_lists(cols);
    let merged = merge_spells(all_spells_of(cols));
    add_all(IndexV::empty(), merged.map_values(|s: SpellV| finish_spell(s, lists, table)))
}

/// The index of the first list entry with name `k`.
fn find_list(acc: &SpellLists, k: &str) -> (r: Option<usize>)
    ensures
        match r {
            Some(idx) => idx < acc@.len() && acc@[idx as int].0@ == k@ && forall|j: int|
                0 <= j < idx ==> acc@[j].0@ != k@,
            None => forall|j: int| 0 <= j < acc@.len() ==> acc@[j].0@ != k@,
        },
{
    let n = acc.len();
    let mut i: usize = 0;
    while i < n
        invariant
            i <= n,
            n == acc@.len(),
            forall|j: int| 0 <= j < i ==> acc@[j].0@ != k@,
        decreases n - i,
    {
        if str_eq(acc[i].0.as_str(), k) {
            return Some(i);
        }
        i = i + 1;
    }
    None
}

/// `upsert_list` replaces the first entry whose name matches.
proof fn lemma_upsert_list_found(
    acc: Seq<(Seq<char>, Seq<Seq<char>>)>,
    k: Seq<char>,
    v: Seq<Seq<char>>,
    idx: int,
)
    requires
        0 <= idx < acc.len(),
        acc[idx].0 == k,
        forall|j: int| 0 <= j < idx ==> acc[j].0 != k,
    ensures
        upsert_list(acc, k, v) == acc.update(idx, (k, v)),
    decreases acc.len(),
{
    if idx == 0 {
        assert(upsert_list(acc, k, v) =~= acc.update(0, (k, v)));
    } else {
        lemma_upsert_list_found(acc.drop_first(), k, v, idx - 1);
        assert(upsert_list(acc, k, v) =~= acc.update(idx, (k, v)));
    }
}

/// `upsert_list` appends when no name matches.
proof fn lemma_upsert_list_new(
    acc: Seq<(Seq<char>, Seq<Seq<char>>)>,
    k: Seq<char>,
    v: Seq<Seq<char>>,
)
    requires
        forall|j: int| 0 <= j < acc.len() ==> acc[j].0 != k,
    ensures
        upsert_list(acc, k, v) == acc.push((k, v)),
    decreases acc.len(),
{
    if acc.len() == 0 {
        assert(upsert_list(acc, k, v) =~= acc.push((k, v)));
    } else {
        lemma_upsert_list_new(acc.drop_first(), k, v);
        assert(upsert_list(acc, k, v) =~= acc.push((k, v)));
    }
}

/// One supplemental-list mapping of every collection, merged; the later
/// entry wins a name collision.
pub fn merge_spell_lists(cols: &Vec<SpellCollection>) -> (r: SpellLists)
    ensures
        lists_views(r@) == merged_lists(collection_views(cols@)),
{
    let mut acc: SpellLists = Vec::new();
    let n = cols.len();
    proof {
        assert(collection_views(cols@).take(0) =~= Seq::<CollectionV>::empty());
        assert(lists_views(acc@) =~= merged_lists(collection_views(cols@).take(0)));
    }
    let mut ci: usize = 0;
    while ci < n
        invariant
            ci <= n,
            n == cols@.len(),
            lists_views(acc@) == merged_lists(collection_views(cols@).take(ci as int)),
        decreases n - ci,
    {
        let entries = &cols[ci].spell_lists;
        let m = entries.len();
        let ghost base = lists_views(acc@);
        let ghost evs = lists_views(entries@);
        let mut ei: usize = 0;
        proof {
            assert(evs.take(0) =~= Seq::<(Seq<char>, Seq<Seq<char>>)>::empty());
        }
        while ei < m
            invariant
                ei <= m,
                m == entries@.len(),
                evs == lists_views(entries@),
                lists_views(acc@) == merge_entries(base, evs.take(ei as int)),
            decreases m - ei,
        {
            proof {
                assert(evs.take(ei + 1).drop_last() =~= evs.take(ei as int));
                assert(evs.take(ei + 1).last() == evs[ei as int]);
            }
            let key = &entries[ei].0;
            let val = clone_strings(&entries[ei].1);
            let ghost a0 = lists_views(acc@);
            match find_list(&acc, key.as_str()) {
                Some(idx) => {
                    let entry = (key.clone(), val);
                    let ghost ev = entry;
                    let ghost before = acc@;
                    acc.remove(idx);
                    acc.insert(idx, entry);
                    proof {
                        lemma_upsert_list_found(a0, key@, evs[ei as int].1, idx as int);
                        assert(acc@ =~= before.update(idx as int, ev));
                        lemma_lists_views_update(before, idx as int, ev);
                        assert(views_of(ev.1@) == evs[ei as int].1);
                        assert(lists_views(acc@) =~= a0.update(
                            idx as int,
                            (key@, evs[ei as int].1),
                        ));
                    }
                },
                None => {
                    let entry = (key.clone(), val);
                    let ghost ev = entry;
                    let ghost before = acc@;
                    acc.push(entry);
                    proof {
                        lemma_upsert_list_new(a0, key@, evs[ei as int].1);
                        lemma_lists_views_push(before, ev);
                        assert(views_of(ev.1@) == evs[ei as int].1);
                        assert(lists_views(acc@) =~= a0.push((key@, evs[ei as int].1)));
                    }
                },
            }
            ei = ei + 1;
        }
        proof {
            assert(evs.take(m as int) =~= evs);
            assert(collection_views(cols@).take(ci + 1).drop_last() =~= collection_views(
                cols@,
            ).take(ci as int));
            assert(collection_views(cols@).take(ci + 1).last() == collection_views(cols@)[
            ci as int]);
        }
        ci = ci + 1;
    }
    proof {
        assert(collection_views(cols@).take(n as int) =~= collection_views(cols@));
    }
    acc
}

/// Every collection's spells, concatenated in order.
pub fn concat_spells(cols: &Vec<SpellCollection>) -> (r: Vec<Spell>)
    ensures
        spell_views(r@) == all_spells_of(collection_views(cols@)),
{
    let mut r: Vec<Spell> = Vec::new();
    let n = cols.len();
    proof {
        assert(collection_views(cols@).take(0) =~= Seq::<CollectionV>::empty());
        assert(spell_views(r@) =~= all_spells_of(collection_views(cols@).take(0)));
    }
    let mut ci: usize = 0;
    while ci < n
        invariant
            ci <= n,
            n == cols@.len(),
            spell_views(r@) == all_spells_of(collection_views(cols@).take(ci as int)),
        decreases n - ci,
    {
        let spells = &cols[ci].spells;
        let m = spells.len();
        let ghost base = spell_views(r@);
        let mut si: usize = 0;
        while si < m
            invariant
                si <= m,
                m == spells@.len(),
                spell_views(r@) == base + spell_views(spells@).take(si as int),
            decreases m - si,
        {
            let sc = spells[si].clone();
            let ghost r0 = r@;
            r.push(sc);
            proof {
                assert(spell_views(spells@).take(si + 1) =~= spell_views(spells@).take(
                    si as int,
                ).push(spells@[si as int]@));
                assert(r@ == r0.push(sc));
                assert(sc@ == spells@[si as int]@);
                lemma_spell_views_push(r0, sc);
                assert(spell_views(spells@)[si as int] == spells@[si as int]@);
                assert(spell_views(r@) =~= base + spell_views(spells@).take(si + 1));
            }
            si = si + 1;
        }
        proof {
            assert(spell_views(spells@).take(m as int) =~= spell_views(spells@));
            assert(collection_views(cols@).take(ci + 1).drop_last() =~= collection_views(
                cols@,
            ).take(ci as int));
            assert(collection_views(cols@).take(ci + 1).last() == collection_views(cols@)[
            ci as int]);
            assert(collection_views(cols@)[ci as int].spells == spell_views(spells@));
        }
        ci = ci + 1;
    }
    proof {
        assert(collection_views(cols@).take(n as int) =~= collection_views(cols@));
    }
    r
}

/// Whether some spell of `acc` is named `name`.
fn has_name_exec(acc: &Vec<Spell>, name: &str) -> (r: bool)
    ensures
        r == has_name(spell_views(acc@), name@),
{
    let n = acc.len();
    let mut i: usize = 0;
    while i < n
        invariant
            i <= n,
            n == acc@.len(),
            forall|j: int| 0 <= j < i ==> (#[trigger] spell_views(acc@)[j]).name != name@,
        decreases n - i,
    {
        if str_eq(acc[i].name.as_str(), name) {
            proof {
                assert(spell_views(acc@)[i as int].name == name@);
            }
            return true;
        }
        i = i + 1;
    }
    false
}

/// `insert_sorted` is insertion at the first position whose name orders
/// after the new spell's.
proof fn lemma_insert_sorted_at(acc: Seq<SpellV>, s: SpellV, pos: int)
    requires
        0 <= pos <= acc.len(),
        forall|j: int| 0 <= j < pos ==> lex_le((#[trigger] acc[j]).name, s.name),
        pos == acc.len() || !lex_le(acc[pos].name, s.name),
    ensures
        insert_sorted(acc, s) == acc.insert(pos, s),
    decreases pos,
{
    if pos == 0 {
        if acc.len() == 0 {
            assert(insert_sorted(acc, s) =~= acc.insert(0, s));
        } else {
            assert(insert_sorted(acc, s) =~= acc.insert(0, s));
        }
    } else {
        assert(lex_le(acc[0].name, s.name));
        lemma_insert_sorted_at(acc.drop_first(), s, pos - 1);
        assert(insert_sorted(acc, s) =~= acc.insert(pos, s));
    }
}

/// The first position whose spell's name orders after `name`.
fn find_insert_pos(acc: &Vec<Spell>, name: &str) -> (pos: usize)
    ensures
        pos <= acc@.len(),
        forall|j: int| 0 <= j < pos ==> lex_le((#[trigger] spell_views(acc@)[j]).name, name@),
        pos < acc@.len() ==> !lex_le(spell_views(acc@)[pos as int].name, name@),
{
    let n = acc.len();
    let mut i: usize = 0;
    while i < n
        invariant
            i <= n,
            n == acc@.len(),
            forall|j: int| 0 <= j < i ==> lex_le((#[trigger] spell_views(acc@)[j]).name, name@),
        decreases n - i,
    {
        if !str_le(acc[i].name.as_str(), name) {
            proof {
                assert(spell_views(acc@)[i as int].name == acc@[i as int]@.name);
            }
            return i;
        }
        proof {
            assert(spell_views(acc@)[i as int].name == acc@[i as int]@.name);
        }
        i = i + 1;
    }
    n
}

/// The spells merged in input order: per name the first occurrence
/// survives, placed at its sorted position.
pub fn merge_spells_exec(spells: &Vec<Spell>) -> (r: Vec<Spell>)
    ensures
        spell_views(r@) == merge_spells(spell_views(spells@)),
{
    let mut acc: Vec<Spell> = Vec::new();
    let n = spells.len();
    let ghost svs = spell_views(spells@);
    proof {
        assert(svs.take(0) =~= Seq::<SpellV>::empty());
    }
    let mut i: usize = 0;
    while i < n
        invariant
            i <= n,
            n == spells@.len(),
            svs == spell_views(spells@),
            spell_views(acc@) == merge_spells(svs.take(i as int)),
        decreases n - i,
    {
        proof {
            assert(svs.take(i + 1).drop_last() =~= svs.take(i as int));
            assert(svs.take(i + 1).last() == svs[i as int]);
        }
        let s = &spells[i];
        if !has_name_exec(&acc, s.name.as_str()) {
            let ghost a0 = spell_views(acc@);
            let pos = find_insert_pos(&acc, s.name.as_str());
            let sc = s.clone();
            let ghost acc0 = acc@;
            acc.insert(pos, sc);
            proof {
                lemma_insert_sorted_at(a0, svs[i as int], pos as int);
                assert(sc@ == svs[i as int]);
                lemma_spell_views_insert(acc0, sc, pos as int);
                assert(spell_views(acc@) =~= a0.insert(pos as int, svs[i as int]));
            }
        }
        i = i + 1;
    }
    proof {
        assert(svs.take(n as int) =~= svs);
    }
    acc
}

/// No two spells share a name.
pub open spec fn distinct_names(s: Seq<SpellV>) -> bool {
    forall|i: int, j: int| 0 <= i < j < s.len() ==> (#[trigger] s[i]).name != (#[trigger] s[j]).name
}

/// Appending one spell adds exactly its name, and the first spell of any
/// name already present stays the first.
proof fn lemma_first_with_name_push(y: Seq<SpellV>, t: SpellV, m: Seq<char>)
    ensures
        has_name(y.push(t), m) <==> (has_name(y, m) || t.name == m),
        has_name(y, m) ==> first_with_name(y.push(t), m) == first_with_name(y, m),
        !has_name(y, m) && t.name == m ==> first_with_name(y.push(t), m) == t,
    decreases y.len(),
{
    if y.len() == 0 {
        assert(y.push(t)[0] == t);
        if has_name(y, m) {
            let i = choose|i: int| 0 <= i < y.len() && y[i].name == m;
        }
        if t.name == m {
            assert(y.push(t)[0].name == m);
            assert(has_name(y.push(t), m));
        }
        if has_name(y.push(t), m) {
            let i = choose|i: int| 0 <= i < y.push(t).len() && y.push(t)[i].name == m;
            assert(i == 0);
        }
    } else {
        assert(y.push(t)[0] == y[0]);
        assert(y.push(t).drop_first() =~= y.drop_first().push(t));
        lemma_first_with_name_push(y.drop_first(), t, m);
        assert(has_name(y, m) <==> (y[0].name == m || has_name(y.drop_first(), m))) by {
            if has_name(y, m) {
                let i = choose|i: int| 0 <= i < y.len() && y[i].name == m;
                if i > 0 {
                    assert(y.drop_first()[i - 1].name == m);
                }
            }
            if has_name(y.drop_first(), m) {
                let i = choose|i: int| 0 <= i < y.drop_first().len() && y.drop_first()[i].name
                    == m;
                assert(y[i + 1].name == m);
            }
        }
        assert(has_name(y.push(t), m) <==> (y.push(t)[0].name == m || has_name(
            y.push(t).drop_first(),
            m,
        ))) by {
            if has_name(y.push(t), m) {
                let i = choose|i: int| 0 <= i < y.push(t).len() && y.push(t)[i].name == m;
                if i > 0 {
                    assert(y.push(t).drop_first()[i - 1].name == m);
                }
            }
            if has_name(y.push(t).drop_first(), m) {
                let i = choose|i: int|
                    0 <= i < y.push(t).drop_first().len() && y.push(t).drop_first()[i].name == m;
                assert(y.push(t)[i + 1].name == m);
            }
        }
    }
}

/// What insertion adds: the names grow by exactly the new spell's name,
/// every element is the new spell or an old one, and distinct names stay
/// distinct.
proof fn lemma_insert_sorted_props(acc: Seq<SpellV>, s: SpellV)
    requires
        !has_name(acc, s.name),
    ensures
        insert_sorted(acc, s).len() == acc.len() + 1,
        forall|m: Seq<char>|
            has_name(insert_sorted(acc, s), m) <==> (has_name(acc, m) || m == s.name),
        forall|i: int|
            0 <= i < insert_sorted(acc, s).len() ==> (#[trigger] insert_sorted(acc, s)[i] == s
                || acc.contains(insert_sorted(acc, s)[i])),
        distinct_names(acc) ==> distinct_names(insert_sorted(acc, s)),
    decreases acc.len(),
{
    let r = insert_sorted(acc, s);
    if acc.len() == 0 {
        assert(r =~= seq![s]);
        assert forall|m: Seq<char>| has_name(r, m) <==> (has_name(acc, m) || m == s.name) by {
            if has_name(r, m) {
                let i = choose|i: int| 0 <= i < r.len() && r[i].name == m;
            }
            if m == s.name {
                assert(r[0].name == m);
            }
        }
        assert(distinct_names(r));
    } else if lex_le(acc[0].name, s.name) {
        assert(!has_name(acc.drop_first(), s.name)) by {
            if has_name(acc.drop_first(), s.name) {
                let i = choose|i: int|
                    0 <= i < acc.drop_first().len() && acc.drop_first()[i].name == s.name;
                assert(acc[i + 1].name == s.name);
            }
        }
        lemma_insert_sorted_props(acc.drop_first(), s);
        let rr = insert_sorted(acc.drop_first(), s);
        assert(r =~= seq![acc[0]] + rr);
        assert forall|m: Seq<char>| has_name(r, m) <==> (has_name(acc, m) || m == s.name) by {
            if has_name(r, m) {
                let i = choose|i: int| 0 <= i < r.len() && r[i].name == m;
                if i > 0 {
                    assert(rr[i - 1].name == m);
                    assert(has_name(rr, m));
                    if m != s.name {
                        let k = choose|k: int|
                            0 <= k < acc.drop_first().len() && acc.drop_first()[k].name == m;
                        assert(acc[k + 1].name == m);
                    }
                }
            }
            if has_name(acc, m) {
                let i = choose|i: int| 0 <= i < acc.len() && acc[i].name == m;
                if i == 0 {
                    assert(r[0].name == m);
                } else {
                    assert(acc.drop_first()[i - 1].name == m);
                    assert(has_name(acc.drop_first(), m));
                    assert(has_name(rr, m));
                    let k = choose|k: int| 0 <= k < rr.len() && rr[k].name == m;
                    assert(r[k + 1].name == m);
                }
            }
            if m == s.name {
                assert(has_name(rr, m));
                let k = choose|k: int| 0 <= k < rr.len() && rr[k].name == m;
                assert(r[k + 1].name == m);
            }
        }
        assert forall|i: int| 0 <= i < r.len() implies (#[trigger] r[i] == s || acc.contains(
            r[i],
        )) by {
            if i > 0 {
                assert(r[i] == rr[i - 1]);
                if rr[i - 1] != s {
                    assert(acc.drop_first().contains(rr[i - 1]));
                    let k = choose|k: int|
                        0 <= k < acc.drop_first().len() && acc.drop_first()[k] == rr[i - 1];
                    assert(acc[k + 1] == rr[i - 1]);
                }
            } else {
                assert(acc.contains(acc[0]));
            }
        }
        if distinct_names(acc) {
            assert(distinct_names(acc.drop_first())) by {
                assert forall|a: int, b: int|
                    0 <= a < b < acc.drop_first().len() implies (
                #[trigger] acc.drop_first()[a]).name != (#[trigger] acc.drop_first()[b]).name by {
                    assert(acc[a + 1].name != acc[b + 1].name);
                }
            }
            assert(distinct_names(rr));
            assert forall|a: int, b: int| 0 <= a < b < r.len() implies (#[trigger] r[a]).name != (
            #[trigger] r[b]).name by {
                if a == 0 {
                    assert(r[b] == rr[b - 1]);
                    assert(!has_name(rr, acc[0].name)) by {
                        if has_name(acc.drop_first(), acc[0].name) {
                            let k = choose|k: int|
                                0 <= k < acc.drop_first().len() && acc.drop_first()[k].name
                                    == acc[0].name;
                            assert(acc[k + 1].name == acc[0].name);
                        }
                        assert(acc[0].name != s.name) by {
                            if acc[0].name == s.name {
                                assert(has_name(acc, s.name));
                            }
                        }
                    }
                    if r[b].name == acc[0].name {
                        assert(rr[b - 1].name == acc[0].name);
                        assert(has_name(rr, acc[0].name));
                    }
                } else {
                    assert(r[a] == rr[a - 1]);
                    assert(r[b] == rr[b - 1]);
                }
            }
        }
    } else {
        assert(r =~= seq![s] + acc);
        assert forall|m: Seq<char>| has_name(r, m) <==> (has_name(acc, m) || m == s.name) by {
            if has_name(r, m) {
                let i = choose|i: int| 0 <= i < r.len() && r[i].name == m;
                if i > 0 {
                    assert(acc[i - 1].name == m);
                }
            }
            if has_name(acc, m) {
                let i = choose|i: int| 0 <= i < acc.len() && acc[i].name == m;
                assert(r[i + 1].name == m);
            }
            if m == s.name {
                assert(r[0].name == m);
            }
        }
        assert forall|i: int| 0 <= i < r.len() implies (#[trigger] r[i] == s || acc.contains(
            r[i],
        )) by {
            if i > 0 {
                assert(r[i] == acc[i - 1]);
                assert(acc.contains(acc[i - 1]));
            }
        }
        if distinct_names(acc) {
            assert forall|a: int, b: int| 0 <= a < b < r.len() implies (#[trigger] r[a]).name != (
            #[trigger] r[b]).name by {
                if a == 0 {
                    assert(r[b] == acc[b - 1]);
                    if acc[b - 1].name == s.name {
                        assert(has_name(acc, s.name));
                    }
                } else {
                    assert(r[a] == acc[a - 1]);
                    assert(r[b] == acc[b - 1]);
                }
            }
        }
    }
}

/// The spells stand in name order.
pub open spec fn sorted_by_name(s: Seq<SpellV>) -> bool {
    forall|i: int, j: int|
        0 <= i < j < s.len() ==> lex_le((#[trigger] s[i]).name, (#[trigger] s[j]).name)
}

/// Every element of an insertion is the new spell or an old one.
proof fn lemma_insert_sorted_membership(acc: Seq<SpellV>, s: SpellV)
    ensures
        insert_sorted(acc, s).len() == acc.len() + 1,
        forall|i: int|
            0 <= i < insert_sorted(acc, s).len() ==> (#[trigger] insert_sorted(acc, s)[i] == s
                || acc.contains(insert_sorted(acc, s)[i])),
    decreases acc.len(),
{
    let r = insert_sorted(acc, s);
    if acc.len() == 0 {
    } else if lex_le(acc[0].name, s.name) {
        lemma_insert_sorted_membership(acc.drop_first(), s);
        let rr = insert_sorted(acc.drop_first(), s);
        assert(r =~= seq![acc[0]] + rr);
        assert forall|i: int| 0 <= i < r.len() implies (#[trigger] r[i] == s || acc.contains(
            r[i],
        )) by {
            if i == 0 {
                assert(acc.contains(acc[0]));
            } else {
                assert(r[i] == rr[i - 1]);
                if rr[i - 1] != s {
                    assert(acc.drop_first().contains(rr[i - 1]));
                    let k = choose|k: int|
                        0 <= k < acc.drop_first().len() && acc.drop_first()[k] == rr[i - 1];
                    assert(acc[k + 1] == rr[i - 1]);
                }
            }
        }
    } else {
        assert(r =~= seq![s] + acc);
        assert forall|i: int| 0 <= i < r.len() implies (#[trigger] r[i] == s || acc.contains(
            r[i],
        )) by {
            if i > 0 {
                assert(r[i] == acc[i - 1]);
                assert(acc.contains(acc[i - 1]));
            }
        }
    }
}

/// Insertion keeps the name order.
proof fn lemma_insert_sorted_sorted(acc: Seq<SpellV>, s: SpellV)
    requires
        sorted_by_name(acc),
    ensures
        sorted_by_name(insert_sorted(acc, s)),
    decreases acc.len(),
{
    let r = insert_sorted(acc, s);
    if acc.len() == 0 {
    } else if lex_le(acc[0].name, s.name) {
        assert(sorted_by_name(acc.drop_first())) by {
            assert forall|a: int, b: int| 0 <= a < b < acc.drop_first().len() implies lex_le(
                (#[trigger] acc.drop_first()[a]).name,
                (#[trigger] acc.drop_first()[b]).name,
            ) by {
                assert(lex_le(acc[a + 1].name, acc[b + 1].name));
            }
        }
        lemma_insert_sorted_sorted(acc.drop_first(), s);
        lemma_insert_sorted_membership(acc.drop_first(), s);
        let rr = insert_sorted(acc.drop_first(), s);
        assert(r =~= seq![acc[0]] + rr);
        assert forall|a: int, b: int| 0 <= a < b < r.len() implies lex_le(
            (#[trigger] r[a]).name,
            (#[trigger] r[b]).name,
        ) by {
            if a == 0 {
                assert(r[b] == rr[b - 1]);
                if rr[b - 1] == s {
                } else {
                    assert(acc.drop_first().contains(rr[b - 1]));
                    let k = choose|k: int|
                        0 <= k < acc.drop_first().len() && acc.drop_first()[k] == rr[b - 1];
                    assert(acc[k + 1] == rr[b - 1]);
                    assert(lex_le(acc[0].name, acc[k + 1].name));
                }
            } else {
                assert(r[a] == rr[a - 1]);
                assert(r[b] == rr[b - 1]);
            }
        }
    } else {
        crate::text::lemma_lex_total(acc[0].name, s.name);
        assert(lex_le(s.name, acc[0].name));
        assert(r =~= seq![s] + acc);
        assert forall|a: int, b: int| 0 <= a < b < r.len() implies lex_le(
            (#[trigger] r[a]).name,
            (#[trigger] r[b]).name,
        ) by {
            if a == 0 {
                assert(r[b] == acc[b - 1]);
                if b > 1 {
                    assert(lex_le(acc[0].name, acc[b - 1].name));
                    crate::text::lemma_lex_trans(s.name, acc[0].name, acc[b - 1].name);
                }
            } else {
                assert(r[a] == acc[a - 1]);
                assert(r[b] == acc[b - 1]);
            }
        }
    }
}

/// The merged sequence stands in name order: the merge re-establishes a
/// deterministic, name-sorted order whatever order the sources arrived
/// in.
pub proof fn lemma_merge_sorted(x: Seq<SpellV>)
    ensures
        sorted_by_name(merge_spells(x)),
    decreases x.len(),
{
    if x.len() > 0 {
        lemma_merge_sorted(x.drop_last());
        if !has_name(merge_spells(x.drop_last()), x.last().name) {
            lemma_insert_sorted_sorted(merge_spells(x.drop_last()), x.last());
        }
    }
}

/// The merged sequence holds exactly the input's names, each exactly
/// once, and per name the first input spell with it.
pub proof fn lemma_merge_props(x: Seq<SpellV>)
    ensures
        forall|m: Seq<char>| has_name(merge_spells(x), m) <==> has_name(x, m),
        distinct_names(merge_spells(x)),
        forall|i: int|
            0 <= i < merge_spells(x).len() ==> #[trigger] merge_spells(x)[i] == first_with_name(
                x,
                merge_spells(x)[i].name,
            ),
    decreases x.len(),
{
    let r = merge_spells(x);
    if x.len() == 0 {
        assert forall|m: Seq<char>| has_name(r, m) <==> has_name(x, m) by {
            if has_name(r, m) {
                let i = choose|i: int| 0 <= i < r.len() && r[i].name == m;
            }
            if has_name(x, m) {
                let i = choose|i: int| 0 <= i < x.len() && x[i].name == m;
            }
        }
    } else {
        let y = x.drop_last();
        let t = x.last();
        lemma_merge_props(y);
        let acc = merge_spells(y);
        assert(x =~= y.push(t));
        if has_name(acc, t.name) {
            assert(r == acc);
            assert forall|m: Seq<char>| has_name(r, m) <==> has_name(x, m) by {
                lemma_first_with_name_push(y, t, m);
            }
            assert forall|i: int|
                0 <= i < r.len() implies #[trigger] r[i] == first_with_name(x, r[i].name) by {
                lemma_first_with_name_push(y, t, r[i].name);
            }
        } else {
            assert(!has_name(y, t.name));
            lemma_insert_sorted_props(acc, t);
            assert forall|m: Seq<char>| has_name(r, m) <==> has_name(x, m) by {
                lemma_first_with_name_push(y, t, m);
            }
            assert forall|i: int|
                0 <= i < r.len() implies #[trigger] r[i] == first_with_name(x, r[i].name) by {
                lemma_first_with_name_push(y, t, r[i].name);
                if r[i] == t {
                    assert(r[i].name == t.name);
                } else {
                    assert(acc.contains(r[i]));
                    let k = choose|k: int| 0 <= k < acc.len() && acc[k] == r[i];
                    assert(acc[k] == first_with_name(y, acc[k].name));
                    assert(has_name(y, acc[k].name));
                }
            }
        }
    }
}

/// Folding spells into an index appends them, in order, to its spell
/// sequence.
pub proof fn lemma_add_all_spells(v: IndexV, ss: Seq<SpellV>)
    ensures
        add_all(v, ss).spells == v.spells + ss,
    decreases ss.len(),
{
    if ss.len() == 0 {
        assert(add_all(v, ss).spells =~= v.spells + ss);
    } else {
        lemma_add_all_spells(v, ss.drop_last());
        assert(add_all(v, ss).spells =~= v.spells + ss);
    }
}

/// Merging never grows the spell count.
proof fn lemma_merge_len(x: Seq<SpellV>)
    ensures
        merge_spells(x).len() <= x.len(),
    decreases x.len(),
{
    if x.len() > 0 {
        lemma_merge_len(x.drop_last());
        if !has_name(merge_spells(x.drop_last()), x.last().name) {
            lemma_insert_sorted_membership(merge_spells(x.drop_last()), x.last());
        }
    }
}

/// Folding spells into a complete index keeps it complete.
proof fn lemma_add_all_complete(v: IndexV, ss: Seq<SpellV>)
    requires
        crate::index::class_complete(v),
        v.spells.len() + ss.len() <= usize::MAX,
    ensures
        crate::index::class_complete(add_all(v, ss)),
    decreases ss.len(),
{
    if ss.len() > 0 {
        lemma_add_all_complete(v, ss.drop_last());
        lemma_add_all_spells(v, ss.drop_last());
        crate::index::lemma_spec_add_complete(add_all(v, ss.drop_last()), ss.last());
    }
}

/// Index completeness: in a built index, every non-empty class of every
/// spell leads back to the spell, through the class's lower-cased key.
pub proof fn lemma_build_complete(cols: Seq<CollectionV>, table: Seq<(Seq<char>, Seq<char>)>)
    requires
        all_spells_of(cols).len() <= usize::MAX,
    ensures
        crate::index::class_complete(spec_build(cols, table)),
{
    let all = all_spells_of(cols);
    let lists = merged_lists(cols);
    let merged = merge_spells(all);
    let finished = merged.map_values(|s: SpellV| finish_spell(s, lists, table));
    lemma_merge_len(all);
    assert(finished.len() == merged.len());
    assert(crate::index::class_complete(IndexV::empty()));
    lemma_add_all_complete(IndexV::empty(), finished);
}

/// A built index with any usably-classed spell has a non-empty class
/// index: a build from the baseline source alone succeeds, and its class
/// index is non-empty as soon as the fetched baseline holds one spell
/// with a non-blank class.
pub proof fn lemma_build_class_index_nonempty(
    cols: Seq<CollectionV>,
    table: Seq<(Seq<char>, Seq<char>)>,
    i: int,
    c: int,
)
    requires
        all_spells_of(cols).len() <= usize::MAX,
        0 <= i < spec_build(cols, table).spells.len(),
        0 <= c < spec_build(cols, table).spells[i].classes.len(),
        !is_blank(spec_build(cols, table).spells[i].classes[c]),
    ensures
        spec_build(cols, table).map.len() > 0,
{
    lemma_build_complete(cols, table);
    let v = spec_build(cols, table);
    assert(crate::index::map_has_position(
        v.map,
        crate::outside::lower_of(v.spells[i].classes[c]),
        i,
    ));
    if v.map.len() == 0 {
        assert(crate::index::map_get(
            v.map,
            crate::outside::lower_of(v.spells[i].classes[c]),
        ) is None);
    }
}

/// Reachability after deduplication: when the inputs hold spells named
/// `n`, the built index holds one spell named `n`, and each non-blank
/// class it ends with — its own or one a supplemental list assigned —
/// records that spell's position under the class's lower-cased key.
pub proof fn lemma_dedup_reachable(
    cols: Seq<CollectionV>,
    table: Seq<(Seq<char>, Seq<char>)>,
    n: Seq<char>,
    c: int,
)
    requires
        all_spells_of(cols).len() <= usize::MAX,
        has_name(all_spells_of(cols), n),
        ({
            let expected = (first_with_name(all_spells_of(cols), n).classes + classes_from_lists(
                merged_lists(cols),
                n,
            )).map_values(|x: Seq<char>| normalize_class(table, x));
            0 <= c < expected.len() && !is_blank(expected[c])
        }),
    ensures
        ({
            let v = spec_build(cols, table);
            let expected = (first_with_name(all_spells_of(cols), n).classes + classes_from_lists(
                merged_lists(cols),
                n,
            )).map_values(|x: Seq<char>| normalize_class(table, x));
            exists|i: int|
                0 <= i < v.spells.len() && (#[trigger] v.spells[i]).name == n
                    && crate::index::map_has_position(
                    v.map,
                    crate::outside::lower_of(expected[c]),
                    i,
                )
        }),
{
    lemma_dedup_union(cols, table, n);
    lemma_build_complete(cols, table);
    let v = spec_build(cols, table);
    let expected = (first_with_name(all_spells_of(cols), n).classes + classes_from_lists(
        merged_lists(cols),
        n,
    )).map_values(|x: Seq<char>| normalize_class(table, x));
    let i = choose|i: int| 0 <= i < v.spells.len() && (#[trigger] v.spells[i]).name == n;
    assert(v.spells[i].classes == expected);
    assert(!is_blank(v.spells[i].classes[c]));
    assert(crate::index::map_has_position(
        v.map,
        crate::outside::lower_of(v.spells[i].classes[c]),
        i,
    ));
}

/// Building twice from one unchanged snapshot of the upstream sources
/// yields identical indexes: the same spell ordering, the same class
/// names, and the same class-index entries.
pub proof fn lemma_build_idempotent(
    a: IndexV,
    b: IndexV,
    cols: Seq<CollectionV>,
    table: Seq<(Seq<char>, Seq<char>)>,
)
    requires
        a == spec_build(cols, table),
        b == spec_build(cols, table),
    ensures
        a.spells == b.spells,
        a.classes == b.classes,
        a.map == b.map,
{
}

/// Deduplication and class union: when the inputs hold spells named `n`,
/// the built index holds exactly one spell named `n` — the first fetched —
/// and its classes are its own extended by every merged supplemental list
/// that holds `n`, the table applied.
pub proof fn lemma_dedup_union(
    cols: Seq<CollectionV>,
    table: Seq<(Seq<char>, Seq<char>)>,
    n: Seq<char>,
)
    requires
        has_name(all_spells_of(cols), n),
    ensures
        ({
            let v = spec_build(cols, table);
            let s0 = first_with_name(all_spells_of(cols), n);
            let expected = (s0.classes + classes_from_lists(merged_lists(cols), n)).map_values(
                |c: Seq<char>| normalize_class(table, c),
            );
            &&& exists|i: int| 0 <= i < v.spells.len() && (#[trigger] v.spells[i]).name == n
            &&& forall|i: int, j: int|
                0 <= i < v.spells.len() && 0 <= j < v.spells.len() && (
                #[trigger] v.spells[i]).name == n && (#[trigger] v.spells[j]).name == n ==> i == j
            &&& forall|i: int|
                0 <= i < v.spells.len() && (#[trigger] v.spells[i]).name == n ==> v.spells[i].classes
                    == expected
        }),
{
    let all = all_spells_of(cols);
    let lists = merged_lists(cols);
    let merged = merge_spells(all);
    let finished = merged.map_values(|s: SpellV| finish_spell(s, lists, table));
    lemma_merge_props(all);
    lemma_add_all_spells(IndexV::empty(), finished);
    let v = spec_build(cols, table);
    assert(v.spells =~= finished);
    assert(finished.len() == merged.len());
    assert(has_name(merged, n));
    let w = choose|w: int| 0 <= w < merged.len() && merged[w].name == n;
    assert(finished[w] == finish_spell(merged[w], lists, table));
    assert(v.spells[w].name == n);
    assert forall|i: int, j: int|
        0 <= i < v.spells.len() && 0 <= j < v.spells.len() && (#[trigger] v.spells[i]).name == n
            && (#[trigger] v.spells[j]).name == n implies i == j by {
        assert(v.spells[i] == finish_spell(merged[i], lists, table));
        assert(v.spells[j] == finish_spell(merged[j], lists, table));
        assert(merged[i].name == n && merged[j].name == n);
    }
    assert forall|i: int|
        0 <= i < v.spells.len() && (#[trigger] v.spells[i]).name == n implies v.spells[i].classes
        == (first_with_name(all, n).classes + classes_from_lists(lists, n)).map_values(
        |c: Seq<char>| normalize_class(table, c),
    ) by {
        assert(v.spells[i] == finish_spell(merged[i], lists, table));
        assert(merged[i].name == n);
        assert(merged[i] == first_with_name(all, n));
    }
}

/// Whether a string of `v` equals `s`.
fn contains_str(v: &Vec<String>, s: &str) -> (r: bool)
    ensures
        r == views_of(v@).contains(s@),
{
    let n = v.len();
    let mut i: usize = 0;
    while i < n
        invariant
            i <= n,
            n == v@.len(),
            forall|j: int| 0 <= j < i ==> views_of(v@)[j] != s@,
        decreases n - i,
    {
        if str_eq(v[i].as_str(), s) {
            proof {
                assert(views_of(v@)[i as int] == s@);
            }
            return true;
        }
        i = i + 1;
    }
    proof {
        assert(forall|j: int| 0 <= j < views_of(v@).len() ==> views_of(v@)[j] != s@);
    }
    false
}

/// The names of every list, in order, whose members include `name`.
fn classes_from_lists_exec(lists: &SpellLists, name: &str) -> (r: Vec<String>)
    ensures
        views_of(r@) == classes_from_lists(lists_views(lists@), name@),
{
    let mut r: Vec<String> = Vec::new();
    let n = lists.len();
    let ghost lvs = lists_views(lists@);
    proof {
        assert(lvs.take(0) =~= Seq::<(Seq<char>, Seq<Seq<char>>)>::empty());
        assert(views_of(r@) =~= classes_from_lists(lvs.take(0), name@));
    }
    let mut i: usize = 0;
    while i < n
        invariant
            i <= n,
            n == lists@.len(),
            lvs == lists_views(lists@),
            views_of(r@) == classes_from_lists(lvs.take(i as int), name@),
        decreases n - i,
    {
        proof {
            assert(lvs.take(i + 1).drop_last() =~= lvs.take(i as int));
            assert(lvs.take(i + 1).last() == lvs[i as int]);
        }
        if contains_str(&lists[i].1, name) {
            let ghost r0 = r@;
            let k = lists[i].0.clone();
            r.push(k);
            proof {
                assert(lvs[i as int].1.contains(name@)) by {
                    assert(views_of(lists@[i as int].1@).contains(name@));
                }
                lemma_views_of_push(r0, k);
                assert(k@ == lvs[i as int].0);
                assert(views_of(r@) =~= classes_from_lists(lvs.take(i + 1), name@));
            }
        } else {
            proof {
                assert(!lvs[i as int].1.contains(name@));
                assert(views_of(r@) =~= classes_from_lists(lvs.take(i + 1), name@));
            }
        }
        i = i + 1;
    }
    proof {
        assert(lvs.take(n as int) =~= lvs);
    }
    r
}

/// The first table row whose misspelling matches decides the replacement.
proof fn lemma_normalize_found(table: Seq<(Seq<char>, Seq<char>)>, c: Seq<char>, idx: int)
    requires
        0 <= idx < table.len(),
        table[idx].0 == c,
        forall|j: int| 0 <= j < idx ==> table[j].0 != c,
    ensures
        normalize_class(table, c) == table[idx].1,
    decreases table.len(),
{
    if idx > 0 {
        lemma_normalize_found(table.drop_first(), c, idx - 1);
    }
}

proof fn lemma_normalize_none(table: Seq<(Seq<char>, Seq<char>)>, c: Seq<char>)
    requires
        forall|j: int| 0 <= j < table.len() ==> table[j].0 != c,
    ensures
        normalize_class(table, c) == c,
    decreases table.len(),
{
    if table.len() > 0 {
        lemma_normalize_none(table.drop_first(), c);
    }
}

/// One class name run through the normalization table.
fn normalize_one(table: &Vec<(String, String)>, c: &String) -> (r: String)
    ensures
        r@ == normalize_class(pairs_views(table@), c@),
{
    let n = table.len();
    let ghost tv = pairs_views(table@);
    let mut i: usize = 0;
    while i < n
        invariant
            i <= n,
            n == table@.len(),
            tv == pairs_views(table@),
            forall|j: int| 0 <= j < i ==> (#[trigger] tv[j]).0 != c@,
        decreases n - i,
    {
        if str_eq(table[i].0.as_str(), c.as_str()) {
            proof {
                assert(tv[i as int].0 == c@);
                lemma_normalize_found(tv, c@, i as int);
            }
            return table[i].1.clone();
        }
        proof {
            assert(tv[i as int].0 == table@[i as int].0@);
        }
        i = i + 1;
    }
    proof {
        lemma_normalize_none(tv, c@);
    }
    c.clone()
}

/// Every class name run through the normalization table.
fn normalize_classes(table: &Vec<(String, String)>, classes: &Vec<String>) -> (r: Vec<String>)
    ensures
        views_of(r@) == views_of(classes@).map_values(
            |c: Seq<char>| normalize_class(pairs_views(table@), c),
        ),
{
    let mut r: Vec<String> = Vec::new();
    let n = classes.len();
    let mut i: usize = 0;
    while i < n
        invariant
            i <= n,
            n == classes@.len(),
            r@.len() == i,
            forall|j: int|
                0 <= j < i ==> (#[trigger] r@[j])@ == normalize_class(
                    pairs_views(table@),
                    classes@[j]@,
                ),
        decreases n - i,
    {
        let nc = normalize_one(table, &classes[i]);
        r.push(nc);
        i = i + 1;
    }
    proof {
        let tv = pairs_views(table@);
        let target = views_of(classes@).map_values(|c: Seq<char>| normalize_class(tv, c));
        assert(views_of(r@).len() == target.len());
        assert forall|j: int| 0 <= j < target.len() implies views_of(r@)[j] == target[j] by {
            assert(views_of(r@)[j] == r@[j]@);
            assert(views_of(classes@)[j] == classes@[j]@);
        }
        assert(views_of(r@) =~= target);
    }
    r
}

/// A spell's classes extended by the supplemental lists that hold its
/// name, then normalized.
pub fn finish_spell_exec(
    s: &Spell,
    lists: &SpellLists,
    table: &Vec<(String, String)>,
) -> (r: Spell)
    ensures
        r@ == finish_spell(s@, lists_views(lists@), pairs_views(table@)),
{
    let mut cls = clone_strings(&s.classes);
    let mut extra = classes_from_lists_exec(lists, s.name.as_str());
    let ghost cls0 = cls@;
    let ghost extra0 = extra@;
    cls.append(&mut extra);
    proof {
        assert(cls@ == cls0 + extra0);
        lemma_views_of_add(cls0, extra0);
    }
    let normalized = normalize_classes(table, &cls);
    let r = Spell {
        name: s.name.clone(),
        level: s.level,
        school: s.school,
        classes: normalized,
        description: s.description.clone(),
        ritual: s.ritual,
    };
    proof {
        assert(r@ =~= finish_spell(s@, lists_views(lists@), pairs_views(table@)));
    }
    r
}

/// The class-name normalization table: upstream misspellings and their
/// canonical names.
pub fn default_class_fixes() -> (r: Vec<(String, String)>)
    ensures
        pairs_views(r@) == seq![
            ("Artificier"@, "Artificer"@),
            ("Range"@, "Ranger"@),
            ("Drud"@, "Druid"@),
            ("Warloc"@, "Warlock"@),
        ],
{
    let mut r: Vec<(String, String)> = Vec::new();
    r.push(("Artificier".to_owned(), "Artificer".to_owned()));
    r.push(("Range".to_owned(), "Ranger".to_owned()));
    r.push(("Drud".to_owned(), "Druid".to_owned()));
    r.push(("Warloc".to_owned(), "Warlock".to_owned()));
    proof {
        assert(pairs_views(r@) =~= seq![
            ("Artificier"@, "Artificer"@),
            ("Range"@, "Ranger"@),
            ("Drud"@, "Druid"@),
            ("Warloc"@, "Warlock"@),
        ]);
    }
    r
}

/// The catalog keys that survive the fetch plan: those not naming
/// unreleased material.
pub open spec fn non_ua(keys: Seq<Seq<char>>) -> Seq<Seq<char>>
    decreases keys.len(),
{
    if keys.len() == 0 {
        seq![]
    } else {
        non_ua(keys.drop_last()) + (if starts_with_spec(keys.last(), "UA"@) {
            seq![]
        } else {
            seq![keys.last()]
        })
    }
}

/// The fetch plan for a tenant: its configured sources, then the baseline
/// source, then every catalog key not naming unreleased material.
pub fn plan_sources(configured: Vec<String>, catalog_keys: &Vec<String>) -> (r: Vec<String>)
    ensures
        views_of(r@) == views_of(configured@) + seq!["srd"@] + non_ua(views_of(catalog_keys@)),
{
    let ghost conf0 = configured@;
    let mut r = configured;
    let srd = "srd".to_owned();
    let ghost base0 = r@;
    r.push(srd);
    proof {
        lemma_views_of_push(base0, srd);
        assert(views_of(r@) =~= views_of(conf0) + seq!["srd"@]);
    }
    let ghost base = views_of(r@);
    let ghost kvs = views_of(catalog_keys@);
    let n = catalog_keys.len();
    proof {
        assert(kvs.take(0) =~= Seq::<Seq<char>>::empty());
        assert(views_of(r@) =~= base + non_ua(kvs.take(0)));
    }
    let mut i: usize = 0;
    while i < n
        invariant
            i <= n,
            n == catalog_keys@.len(),
            kvs == views_of(catalog_keys@),
            views_of(r@) == base + non_ua(kvs.take(i as int)),
        decreases n - i,
    {
        proof {
            assert(kvs.take(i + 1).drop_last() =~= kvs.take(i as int));
            assert(kvs.take(i + 1).last() == kvs[i as int]);
        }
        if !str_starts_with(catalog_keys[i].as_str(), "UA") {
            let ghost r0 = r@;
            let k = catalog_keys[i].clone();
            r.push(k);
            proof {
                lemma_views_of_push(r0, k);
                assert(k@ == kvs[i as int]);
                assert(views_of(r@) =~= base + non_ua(kvs.take(i + 1)));
            }
        } else {
            proof {
                assert(views_of(r@) =~= base + non_ua(kvs.take(i + 1)));
            }
        }
        i = i + 1;
    }
    proof {
        assert(kvs.take(n as int) =~= kvs);
        assert(views_of(conf0) + seq!["srd"@] + non_ua(kvs) =~= base + non_ua(kvs));
    }
    r
}

/// Builds a tenant's index from its fetched collections: supplemental
/// lists merged (later wins), spells deduplicated by name (the first
/// occurrence wins, sorted by name), classes resolved from the lists and
/// normalized, and the result folded into the class-keyed index.
pub fn build_spell_map(
    collections: &Vec<SpellCollection>,
    class_fixes: &Vec<(String, String)>,
) -> (r: SpellMap)
    ensures
        r@ == spec_build(collection_views(collections@), pairs_views(class_fixes@)),
        r.wf(),
{
    let ghost cols = collection_views(collections@);
    let ghost table = pairs_views(class_fixes@);
    let lists = merge_spell_lists(collections);
    let all = concat_spells(collections);
    let merged = merge_spells_exec(&all);
    let ghost lvs = lists_views(lists@);
    let ghost fvs = spell_views(merged@).map_values(|s: SpellV| finish_spell(s, lvs, table));
    let mut sm = SpellMap::new();
    let n = merged.len();
    proof {
        assert(fvs.take(0) =~= Seq::<SpellV>::empty());
    }
    let mut i: usize = 0;
    while i < n
        invariant
            i <= n,
            n == merged@.len(),
            lvs == lists_views(lists@),
            table == pairs_views(class_fixes@),
            fvs == spell_views(merged@).map_values(|s: SpellV| finish_spell(s, lvs, table)),
            fvs.len() == n,
            sm@ == add_all(IndexV::empty(), fvs.take(i as int)),
            sm.wf(),
        decreases n - i,
    {
        proof {
            assert(fvs.take(i + 1).drop_last() =~= fvs.take(i as int));
            assert(fvs.take(i + 1).last() == fvs[i as int]);
        }
        let f = finish_spell_exec(&merged[i], &lists, class_fixes);
        proof {
            assert(spell_views(merged@)[i as int] == merged@[i as int]@);
            assert(fvs[i as int] == finish_spell(spell_views(merged@)[i as int], lvs, table));
        }
        sm.add_spell(f);
        i = i + 1;
    }
    proof {
        assert(fvs.take(n as int) =~= fvs);
        assert(spec_build(cols, table) == add_all(IndexV::empty(), fvs));
    }
    sm
}

} // verus!
