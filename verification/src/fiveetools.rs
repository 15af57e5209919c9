//! The compendium-mirror adapter: the book document shape (a `spell`
//! array), the per-spell class lists, the injection of classes from the
//! remote class-source lookup, and the key-to-path file index.

use vstd::prelude::*;
use crate::data::{Source, Spell, SpellCollection, SpellV, spell_views};
use crate::json::{bool_field, json_get, json_field, level_field, level_field_exec, str_field, str_field_exec, Json};
use crate::merge::pairs_views;
use crate::schools::SpellSchool;
use crate::outside::{lower_of, to_lowercase};
use crate::text::views_of;

verus! {

/// One fetched compendium book, before it becomes a collection.
#[derive(Debug)]
pub struct Book {
    pub id: String,
    pub spells: Vec<Spell>,
}

/// The mathematical value of a book.
#[verifier::ext_equal]
pub ghost struct BookV {
    pub id: Seq<char>,
    pub spells: Seq<SpellV>,
}

impl View for Book {
    type V = BookV;

    open spec fn view(&self) -> BookV {
        BookV { id: self.id@, spells: spell_views(self.spells@) }
    }
}

/// The class names a book spell lists directly: the names under its
/// `classes.fromClassList` array.
pub open spec fn class_list_names(j: Json) -> Seq<Seq<char>> {
    match json_get(j, "classes"@) {
        Some(c) => match json_get(c, "fromClassList"@) {
            Some(Json::Arr(a)) => a@.map_values(|x: Json| str_field(x, "name"@)),
            _ => seq![],
        },
        None => seq![],
    }
}

/// Whether a book spell is a ritual: the `meta.ritual` flag.
pub open spec fn meta_ritual(j: Json) -> bool {
    match json_get(j, "meta"@) {
        Some(m) => bool_field(m, "ritual"@),
        None => false,
    }
}

/// The spell one book record denotes; a book record carries no
/// description text.
pub open spec fn book_spell_v(j: Json) -> SpellV {
    SpellV {
        name: str_field(j, "name"@),
        level: level_field(j, "level"@),
        school: SpellSchool::from_name_spec(str_field(j, "school"@)),
        classes: class_list_names(j),
        description: Seq::empty(),
        ritual: meta_ritual(j),
    }
}

fn class_list_names_exec(j: &Json) -> (r: Vec<String>)
    ensures
        views_of(r@) == class_list_names(*j),
{
    match json_field(j, "classes") {
        Some(c) => match json_field(c, "fromClassList") {
            Some(f) => match f {
                Json::Arr(a) => {
                    let mut r: Vec<String> = Vec::new();
                    let n = a.len();
                    let mut i: usize = 0;
                    while i < n
                        invariant
                            i <= n,
                            n == a@.len(),
                            r@.len() == i,
                            forall|k: int|
                                0 <= k < i ==> (#[trigger] r@[k])@ == str_field(a@[k], "name"@),
                        decreases n - i,
                    {
                        r.push(str_field_exec(&a[i], "name"));
                        i = i + 1;
                    }
                    proof {
                        let target = a@.map_values(|x: Json| str_field(x, "name"@));
                        assert(views_of(r@).len() == target.len());
                        assert forall|k: int| 0 <= k < target.len() implies views_of(r@)[k]
                            == target[k] by {
                            assert(views_of(r@)[k] == r@[k]@);
                        }
                        assert(views_of(r@) =~= target);
                    }
                    r
                },
                _ => {
                    let r: Vec<String> = Vec::new();
                    proof {
                        assert(views_of(r@) =~= class_list_names(*j));
                    }
                    r
                },
            },
            None => {
                let r: Vec<String> = Vec::new();
                proof {
                    assert(views_of(r@) =~= class_list_names(*j));
                }
                r
            },
        },
        None => {
            let r: Vec<String> = Vec::new();
            proof {
                assert(views_of(r@) =~= class_list_names(*j));
            }
            r
        },
    }
}

/// One book spell record normalized.
pub fn book_spell_from_json(j: &Json) -> (r: Spell)
    ensures
        r@ == book_spell_v(*j),
{
    let ritual = match json_field(j, "meta") {
        Some(m) => crate::json::bool_field_exec(m, "ritual"),
        None => false,
    };
    let r = Spell {
        name: str_field_exec(j, "name"),
        level: level_field_exec(j, "level"),
        school: SpellSchool::from_name(str_field_exec(j, "school").as_str()),
        classes: class_list_names_exec(j),
        description: String::new(),
        ritual,
    };
    proof {
        assert(r@ =~= book_spell_v(*j));
    }
    r
}

/// The book one compendium document denotes, under a lower-cased key.
pub open spec fn book_v(j: Json, id: Seq<char>) -> BookV {
    BookV {
        id: lower_of(id),
        spells: match json_get(j, "spell"@) {
            Some(Json::Arr(a)) => a@.map_values(|x: Json| book_spell_v(x)),
            _ => seq![],
        },
    }
}

/// One compendium document decoded; a document without a spell array
/// yields an empty book rather than an error.
pub fn book_from_json(j: &Json, id: &str) -> (r: Book)
    ensures
        r@ == book_v(*j, id@),
{
    let spells = match json_field(j, "spell") {
        Some(f) => match f {
            Json::Arr(a) => {
                let mut v: Vec<Spell> = Vec::new();
                let n = a.len();
                let mut i: usize = 0;
                while i < n
                    invariant
                        i <= n,
                        n == a@.len(),
                        v@.len() == i,
                        forall|k: int| 0 <= k < i ==> (#[trigger] v@[k])@ == book_spell_v(a@[k]),
                    decreases n - i,
                {
                    v.push(book_spell_from_json(&a[i]));
                    i = i + 1;
                }
                proof {
                    let target = a@.map_values(|x: Json| book_spell_v(x));
                    assert(spell_views(v@).len() == target.len());
                    assert forall|k: int| 0 <= k < target.len() implies spell_views(v@)[k]
                        == target[k] by {
                        assert(spell_views(v@)[k] == v@[k]@);
                    }
                    assert(spell_views(v@) =~= target);
                }
                v
            },
            _ => Vec::new(),
        },
        None => Vec::new(),
    };
    let r = Book { id: to_lowercase(id), spells };
    proof {
        assert(r@ =~= book_v(*j, id@));
    }
    r
}

/// The keys of an object value: for the class lookup these are class
/// names.
pub open spec fn keys_of(j: Json) -> Seq<Seq<char>> {
    match j {
        Json::Obj(fs) => fs@.map_values(|p: (String, Json)| p.0@),
        _ => seq![],
    }
}

/// The class names under every source of one lookup entry, in order.
pub open spec fn class_keys(srcs: Seq<(String, Json)>) -> Seq<Seq<char>>
    decreases srcs.len(),
{
    if srcs.len() == 0 {
        seq![]
    } else {
        class_keys(srcs.drop_last()) + keys_of(srcs.last().1)
    }
}

/// The classes the remote lookup assigns one spell, by its lower-cased
/// name: every class name under every source of the entry's `class`
/// object.
pub open spec fn lookup_classes(lookup: Json, lname: Seq<char>) -> Seq<Seq<char>> {
    match json_get(lookup, lname) {
        Some(e) => match json_get(e, "class"@) {
            Some(Json::Obj(srcs)) => class_keys(srcs@),
            _ => seq![],
        },
        None => seq![],
    }
}

fn keys_of_exec(j: &Json) -> (r: Vec<String>)
    ensures
        views_of(r@) == keys_of(*j),
{
    match j {
        Json::Obj(fs) => {
            let mut r: Vec<String> = Vec::new();
            let n = fs.len();
            let mut i: usize = 0;
            while i < n
                invariant
                    i <= n,
                    n == fs@.len(),
                    r@.len() == i,
                    forall|k: int| 0 <= k < i ==> (#[trigger] r@[k])@ == fs@[k].0@,
                decreases n - i,
            {
                r.push(fs[i].0.clone());
                i = i + 1;
            }
            proof {
                let target = fs@.map_values(|p: (String, Json)| p.0@);
                assert(views_of(r@).len() == target.len());
                assert forall|k: int| 0 <= k < target.len() implies views_of(r@)[k] == target[k] by {
                    assert(views_of(r@)[k] == r@[k]@);
                }
                assert(views_of(r@) =~= target);
            }
            r
        },
        _ => {
            let r: Vec<String> = Vec::new();
            proof {
                assert(views_of(r@) =~= keys_of(*j));
            }
            r
        },
    }
}

fn lookup_classes_exec(lookup: &Json, lname: &str) -> (r: Vec<String>)
    ensures
        views_of(r@) == lookup_classes(*lookup, lname@),
{
    match json_field(lookup, lname) {
        Some(e) => match json_field(e, "class") {
            Some(c) => match c {
                Json::Obj(srcs) => {
                    let mut r: Vec<String> = Vec::new();
                    let n = srcs.len();
                    proof {
                        assert(srcs@.take(0) =~= Seq::<(String, Json)>::empty());
                        assert(views_of(r@) =~= class_keys(srcs@.take(0)));
                    }
                    let mut i: usize = 0;
                    while i < n
                        invariant
                            i <= n,
                            n == srcs@.len(),
                            views_of(r@) == class_keys(srcs@.take(i as int)),
                        decreases n - i,
                    {
                        proof {
                            assert(srcs@.take(i + 1).drop_last() =~= srcs@.take(i as int));
                            assert(srcs@.take(i + 1).last() == srcs@[i as int]);
                        }
                        let mut ks = keys_of_exec(&srcs[i].1);
                        let ghost r0 = r@;
                        let ghost kv = ks@;
                        r.append(&mut ks);
                        proof {
                            assert(r@ == r0 + kv);
                            crate::text::lemma_views_of_add(r0, kv);
                            assert(views_of(r@) =~= class_keys(srcs@.take(i + 1)));
                        }
                        i = i + 1;
                    }
                    proof {
                        assert(srcs@.take(n as int) =~= srcs@);
                    }
                    r
                },
                _ => {
                    let r: Vec<String> = Vec::new();
                    proof {
                        assert(views_of(r@) =~= lookup_classes(*lookup, lname@));
                    }
                    r
                },
            },
            None => {
                let r: Vec<String> = Vec::new();
                proof {
                    assert(views_of(r@) =~= lookup_classes(*lookup, lname@));
                }
                r
            },
        },
        None => {
            let r: Vec<String> = Vec::new();
            proof {
                assert(views_of(r@) =~= lookup_classes(*lookup, lname@));
            }
            r
        },
    }
}

/// A book spell extended with the lookup's classes.
pub open spec fn injected(s: SpellV, lookup: Json) -> SpellV {
    SpellV {
        name: s.name,
        level: s.level,
        school: s.school,
        classes: s.classes + lookup_classes(lookup, lower_of(s.name)),
        description: s.description,
        ritual: s.ritual,
    }
}

impl Book {
    /// Extends every spell's classes with what the remote class-source
    /// lookup assigns its lower-cased name.
    pub fn mut_spells(&mut self, spell_lookup: &Json)
        ensures
            final(self)@.id == old(self)@.id,
            final(self)@.spells.len() == old(self)@.spells.len(),
            forall|k: int|
                0 <= k < old(self)@.spells.len() ==> final(self)@.spells[k] == injected(
                    #[trigger] old(self)@.spells[k],
                    *spell_lookup,
                ),
    {
        let ghost sv0 = self@.spells;
        let n = self.spells.len();
        let mut i: usize = 0;
        while i < n
            invariant
                i <= n,
                n == self.spells@.len(),
                self@.id == old(self)@.id,
                sv0 == old(self)@.spells,
                sv0.len() == n,
                forall|k: int|
                    i <= k < n ==> #[trigger] spell_views(self.spells@)[k] == sv0[k],
                forall|k: int|
                    0 <= k < i ==> #[trigger] spell_views(self.spells@)[k] == injected(
                        sv0[k],
                        *spell_lookup,
                    ),
            decreases n - i,
        {
            let ghost pre = self.spells@;
            let mut sp = self.spells.remove(i);
            proof {
                assert(spell_views(pre)[i as int] == pre[i as int]@);
                assert(sp@ == sv0[i as int]);
            }
            let ghost sp0 = sp@;
            let lname = to_lowercase(sp.name.as_str());
            proof {
                assert(lname@ == lower_of(sp0.name));
            }
            let mut extra = lookup_classes_exec(spell_lookup, lname.as_str());
            let ghost c0 = sp.classes@;
            let ghost ev = extra@;
            sp.classes.append(&mut extra);
            proof {
                assert(sp.classes@ == c0 + ev);
                crate::text::lemma_views_of_add(c0, ev);
                assert(views_of(c0) == sp0.classes);
                assert(views_of(ev) == lookup_classes(*spell_lookup, lower_of(sp0.name)));
            }
            let ghost spv = sp@;
            let ghost before_insert = self.spells@;
            self.spells.insert(i, sp);
            proof {
                assert(self.spells@ == before_insert.insert(i as int, sp));
                assert(spv == injected(sv0[i as int], *spell_lookup)) by {
                    assert(spv.classes == views_of(c0 + ev));
                    assert(spv.classes =~= sv0[i as int].classes + lookup_classes(
                        *spell_lookup,
                        lower_of(sv0[i as int].name),
                    ));
                }
                assert forall|k: int| 0 <= k < n implies #[trigger] spell_views(self.spells@)[k]
                    == (if k < i + 1 {
                    injected(sv0[k], *spell_lookup)
                } else {
                    sv0[k]
                }) by {
                    assert(spell_views(self.spells@)[k] == self.spells@[k]@);
                    if k < i {
                        assert(self.spells@[k] == before_insert[k]);
                        assert(before_insert[k] == pre[k]);
                        assert(spell_views(pre)[k] == pre[k]@);
                    } else if k == i {
                        assert(self.spells@[k] == sp);
                    } else {
                        assert(self.spells@[k] == before_insert[k - 1]);
                        assert(before_insert[k - 1] == pre[k]);
                        assert(spell_views(pre)[k] == pre[k]@);
                    }
                }
            }
            i = i + 1;
        }
    }

    /// The book as a normalized collection, named by its key; a book
    /// carries no image and no supplemental lists.
    pub fn into_collection(self) -> (r: SpellCollection)
        ensures
            r@.id == crate::data::SourceV::FiveE(self@.id),
            r@.name == self@.id,
            r@.image is None,
            r@.spells == self@.spells,
            r@.spell_lists =~= Seq::<(Seq<char>, Seq<Seq<char>>)>::empty(),
    {
        let name = self.id.clone();
        SpellCollection {
            id: Source::FiveE(self.id),
            name,
            image: None,
            spells: self.spells,
            spell_lists: Vec::new(),
        }
    }
}

/// The key-to-path pairs of the compendium's file index: the fields of
/// the top-level object whose values are strings.
pub open spec fn index_pairs_of(fs: Seq<(String, Json)>) -> Seq<(Seq<char>, Seq<char>)>
    decreases fs.len(),
{
    if fs.len() == 0 {
        seq![]
    } else {
        index_pairs_of(fs.drop_last()) + (match fs.last().1 {
            Json::Str(p) => seq![(fs.last().0@, p@)],
            _ => seq![],
        })
    }
}

/// The compendium's file index decoded.
pub open spec fn index_of_json(j: Json) -> Seq<(Seq<char>, Seq<char>)> {
    match j {
        Json::Obj(fs) => index_pairs_of(fs@),
        _ => seq![],
    }
}

/// The compendium's file index: short key to relative file path.
pub fn index_from_json(j: &Json) -> (r: Vec<(String, String)>)
    ensures
        pairs_views(r@) == index_of_json(*j),
{
    match j {
        Json::Obj(fs) => {
            let mut r: Vec<(String, String)> = Vec::new();
            let n = fs.len();
            proof {
                assert(fs@.take(0) =~= Seq::<(String, Json)>::empty());
                assert(pairs_views(r@) =~= index_pairs_of(fs@.take(0)));
            }
            let mut i: usize = 0;
            while i < n
                invariant
                    i <= n,
                    n == fs@.len(),
                    pairs_views(r@) == index_pairs_of(fs@.take(i as int)),
                decreases n - i,
            {
                proof {
                    assert(fs@.take(i + 1).drop_last() =~= fs@.take(i as int));
                    assert(fs@.take(i + 1).last() == fs@[i as int]);
                }
                match &fs[i].1 {
                    Json::Str(p) => {
                        let ghost r0 = r@;
                        let entry = (fs[i].0.clone(), p.clone());
                        let ghost ev = entry;
                        r.push(entry);
                        proof {
                            assert(pairs_views(r@).len() == r0.len() + 1);
                            assert forall|k: int| 0 <= k < r0.len() + 1 implies pairs_views(
                                r@,
                            )[k] == pairs_views(r0).push((ev.0@, ev.1@))[k] by {
                                if k < r0.len() {
                                    assert(r@[k] == r0[k]);
                                    assert(pairs_views(r0)[k] == (r0[k].0@, r0[k].1@));
                                } else {
                                    assert(r@[k] == ev);
                                }
                            }
                            assert(pairs_views(r@) =~= pairs_views(r0).push((ev.0@, ev.1@)));
                            assert(pairs_views(r@) =~= index_pairs_of(fs@.take(i + 1)));
                        }
                    },
                    _ => {
                        proof {
                            assert(pairs_views(r@) =~= index_pairs_of(fs@.take(i + 1)));
                        }
                    },
                }
                i = i + 1;
            }
            proof {
                assert(fs@.take(n as int) =~= fs@);
            }
            r
        },
        _ => {
            let r: Vec<(String, String)> = Vec::new();
            proof {
                assert(pairs_views(r@) =~= index_of_json(*j));
            }
            r
        },
    }
}

/// The compendium's file index decoded from a fetched payload: `Ok`
/// exactly when the payload is a JSON document.
pub fn get_index(bytes: &[u8]) -> (r: Result<Vec<(String, String)>, crate::data::FetchError>)
    ensures
        ({
            let parsed = crate::outside::json_of(bytes@);
            &&& (r is Ok <==> parsed is Some)
            &&& match r {
                Ok(v) => pairs_views(v@) == index_of_json(parsed->0),
                Err(e) => e.source@ == "index"@,
            }
        }),
{
    match crate::outside::parse_json(bytes) {
        None => Err(
            crate::data::FetchError {
                source: "index".to_owned(),
                message: "malformed JSON document".to_owned(),
            },
        ),
        Some(j) => Ok(index_from_json(&j)),
    }
}

/// The remote class-source lookup decoded from a fetched payload: `Ok`
/// exactly when the payload is a JSON document, which is then read only
/// through `mut_spells`.
pub fn get_lookup(bytes: &[u8]) -> (r: Result<Json, crate::data::FetchError>)
    ensures
        ({
            let parsed = crate::outside::json_of(bytes@);
            &&& (r is Ok <==> parsed is Some)
            &&& match r {
                Ok(j) => parsed == Some(j),
                Err(e) => e.source@ == "lookup"@,
            }
        }),
{
    match crate::outside::parse_json(bytes) {
        None => Err(
            crate::data::FetchError {
                source: "lookup".to_owned(),
                message: "malformed JSON document".to_owned(),
            },
        ),
        Some(j) => Ok(j),
    }
}

/// One compendium book fetch decoded under its key, with the lookup's
/// classes injected into every spell: `Ok` exactly when the payload is a
/// JSON document.
pub fn get_source(bytes: &[u8], id: &str, spell_lookup: &Json) -> (r: Result<
    Book,
    crate::data::FetchError,
>)
    ensures
        ({
            let parsed = crate::outside::json_of(bytes@);
            &&& (r is Ok <==> parsed is Some)
            &&& match r {
                Ok(b) => {
                    let base = book_v(parsed->0, id@);
                    &&& b@.id == base.id
                    &&& b@.spells.len() == base.spells.len()
                    &&& forall|k: int|
                        0 <= k < base.spells.len() ==> b@.spells[k] == injected(
                            #[trigger] base.spells[k],
                            *spell_lookup,
                        )
                },
                Err(e) => e.source@ == id@,
            }
        }),
{
    match crate::outside::parse_json(bytes) {
        None => Err(
            crate::data::FetchError {
                source: id.to_owned(),
                message: "malformed JSON document".to_owned(),
            },
        ),
        Some(j) => {
            let mut book = book_from_json(&j, id);
            book.mut_spells(spell_lookup);
            Ok(book)
        },
    }
}

/// The keys of a decoded file index, in order.
pub fn index_keys(index: &Vec<(String, String)>) -> (r: Vec<String>)
    ensures
        views_of(r@) == pairs_views(index@).map_values(|p: (Seq<char>, Seq<char>)| p.0),
{
    let mut r: Vec<String> = Vec::new();
    let n = index.len();
    let mut i: usize = 0;
    while i < n
        invariant
            i <= n,
            n == index@.len(),
            r@.len() == i,
            forall|k: int| 0 <= k < i ==> (#[trigger] r@[k])@ == index@[k].0@,
        decreases n - i,
    {
        r.push(index[i].0.clone());
        i = i + 1;
    }
    proof {
        let target = pairs_views(index@).map_values(|p: (Seq<char>, Seq<char>)| p.0);
        assert(views_of(r@).len() == target.len());
        assert forall|k: int| 0 <= k < target.len() implies views_of(r@)[k] == target[k] by {
            assert(views_of(r@)[k] == r@[k]@);
            assert(pairs_views(index@)[k] == (index@[k].0@, index@[k].1@));
        }
        assert(views_of(r@) =~= target);
    }
    r
}

} // verus!
