//! The canonical data shapes: one spell, one normalized source collection,
//! the source tag, a tenant's subscription record, and the fetch error.
//! Each exec type has a mathematical view that the contracts speak of.

use vstd::prelude::*;
use vstd::string::StringExecFns;
use crate::schools::SpellSchool;
use crate::text::views_of;

verus! {

/// One spell as the library stores it.
#[derive(Debug)]
pub struct Spell {
    pub name: String,
    pub level: u8,
    pub school: SpellSchool,
    pub classes: Vec<String>,
    pub description: String,
    pub ritual: bool,
}

/// The mathematical value of a spell.
#[verifier::ext_equal]
pub ghost struct SpellV {
    pub name: Seq<char>,
    pub level: u8,
    pub school: SpellSchool,
    pub classes: Seq<Seq<char>>,
    pub description: Seq<char>,
    pub ritual: bool,
}

impl View for Spell {
    type V = SpellV;

    open spec fn view(&self) -> SpellV {
        SpellV {
            name: self.name@,
            level: self.level,
            school: self.school,
            classes: views_of(self.classes@),
            description: self.description@,
            ritual: self.ritual,
        }
    }
}

/// The views of a sequence of spells.
pub open spec fn spell_views(v: Seq<Spell>) -> Seq<SpellV> {
    v.map_values(|s: Spell| s@)
}

/// Clones every string of a vector.
pub fn clone_strings(v: &Vec<String>) -> (r: Vec<String>)
    ensures
        r@ == v@,
{
    let mut r: Vec<String> = Vec::new();
    let n = v.len();
    let mut i: usize = 0;
    while i < n
        invariant
            i <= n,
            n == v@.len(),
            r@ == v@.subrange(0, i as int),
        decreases n - i,
    {
        r.push(v[i].clone());
        proof {
            assert(r@ =~= v@.subrange(0, i + 1));
        }
        i = i + 1;
    }
    proof {
        assert(v@.subrange(0, n as int) =~= v@);
    }
    r
}

impl Clone for Spell {
    fn clone(&self) -> (r: Self)
        ensures
            r@ == self@,
    {
        Spell {
            name: self.name.clone(),
            level: self.level,
            school: self.school,
            classes: clone_strings(&self.classes),
            description: self.description.clone(),
            ritual: self.ritual,
        }
    }
}

/// Which adapter a collection came through, with the source identifier.
#[derive(Debug, Clone)]
pub enum Source {
    Avrae(String),
    FiveE(String),
    Json(String),
}

/// The mathematical value of a source tag.
#[verifier::ext_equal]
pub ghost enum SourceV {
    Avrae(Seq<char>),
    FiveE(Seq<char>),
    Json(Seq<char>),
}

impl View for Source {
    type V = SourceV;

    open spec fn view(&self) -> SourceV {
        match self {
            Source::Avrae(s) => SourceV::Avrae(s@),
            Source::FiveE(s) => SourceV::FiveE(s@),
            Source::Json(s) => SourceV::Json(s@),
        }
    }
}

/// A named supplemental spell list: class name to member spell names.
pub type SpellLists = Vec<(String, Vec<String>)>;

/// The views of supplemental spell lists.
pub open spec fn lists_views(v: Seq<(String, Vec<String>)>) -> Seq<(Seq<char>, Seq<Seq<char>>)> {
    v.map_values(|p: (String, Vec<String>)| (p.0@, views_of(p.1@)))
}

/// The normalized output of one source adapter.
#[derive(Debug, Clone)]
pub struct SpellCollection {
    pub id: Source,
    pub name: String,
    pub image: Option<String>,
    pub spells: Vec<Spell>,
    pub spell_lists: SpellLists,
}

/// The mathematical value of a collection.
#[verifier::ext_equal]
pub ghost struct CollectionV {
    pub id: SourceV,
    pub name: Seq<char>,
    pub image: Option<Seq<char>>,
    pub spells: Seq<SpellV>,
    pub spell_lists: Seq<(Seq<char>, Seq<Seq<char>>)>,
}

impl View for SpellCollection {
    type V = CollectionV;

    open spec fn view(&self) -> CollectionV {
        CollectionV {
            id: self.id@,
            name: self.name@,
            image: match self.image {
                Some(s) => Some(s@),
                None => None,
            },
            spells: spell_views(self.spells@),
            spell_lists: lists_views(self.spell_lists@),
        }
    }
}

/// The views of a sequence of collections.
pub open spec fn collection_views(v: Seq<SpellCollection>) -> Seq<CollectionV> {
    v.map_values(|c: SpellCollection| c@)
}

/// Pushing a spell commutes with taking views.
pub proof fn lemma_spell_views_push(v: Seq<Spell>, s: Spell)
    ensures
        spell_views(v.push(s)) == spell_views(v).push(s@),
{
    assert(spell_views(v.push(s)).len() == v.len() + 1);
    assert(spell_views(v).len() == v.len());
    assert forall|j: int| 0 <= j < v.len() + 1 implies spell_views(v.push(s))[j] == spell_views(
        v,
    ).push(s@)[j] by {
        assert(spell_views(v.push(s))[j] == v.push(s)[j]@);
        if j < v.len() {
            assert(v.push(s)[j] == v[j]);
            assert(spell_views(v)[j] == v[j]@);
        } else {
            assert(v.push(s)[j] == s);
        }
    }
    assert(spell_views(v.push(s)) =~= spell_views(v).push(s@));
}

/// Inserting a spell commutes with taking views.
pub proof fn lemma_spell_views_insert(v: Seq<Spell>, s: Spell, pos: int)
    requires
        0 <= pos <= v.len(),
    ensures
        spell_views(v.insert(pos, s)) == spell_views(v).insert(pos, s@),
{
    assert(spell_views(v.insert(pos, s)).len() == v.len() + 1);
    assert(spell_views(v).len() == v.len());
    assert forall|j: int| 0 <= j < v.len() + 1 implies spell_views(v.insert(pos, s))[j]
        == spell_views(v).insert(pos, s@)[j] by {
        assert(spell_views(v.insert(pos, s))[j] == v.insert(pos, s)[j]@);
        if j < pos {
            assert(v.insert(pos, s)[j] == v[j]);
            assert(spell_views(v)[j] == v[j]@);
        } else if j == pos {
            assert(v.insert(pos, s)[j] == s);
        } else {
            assert(v.insert(pos, s)[j] == v[j - 1]);
            assert(spell_views(v)[j - 1] == v[j - 1]@);
        }
    }
    assert(spell_views(v.insert(pos, s)) =~= spell_views(v).insert(pos, s@));
}

/// Pushing an entry commutes with taking list views.
pub proof fn lemma_lists_views_push(v: Seq<(String, Vec<String>)>, e: (String, Vec<String>))
    ensures
        lists_views(v.push(e)) == lists_views(v).push((e.0@, views_of(e.1@))),
{
    assert(lists_views(v.push(e)).len() == v.len() + 1);
    assert(lists_views(v).len() == v.len());
    assert forall|j: int| 0 <= j < v.len() + 1 implies lists_views(v.push(e))[j] == lists_views(
        v,
    ).push((e.0@, views_of(e.1@)))[j] by {
        if j < v.len() {
            assert(v.push(e)[j] == v[j]);
            assert(lists_views(v)[j] == (v[j].0@, views_of(v[j].1@)));
        } else {
            assert(v.push(e)[j] == e);
        }
    }
    assert(lists_views(v.push(e)) =~= lists_views(v).push((e.0@, views_of(e.1@))));
}

/// Updating an entry commutes with taking list views.
pub proof fn lemma_lists_views_update(
    v: Seq<(String, Vec<String>)>,
    pos: int,
    e: (String, Vec<String>),
)
    requires
        0 <= pos < v.len(),
    ensures
        lists_views(v.update(pos, e)) == lists_views(v).update(pos, (e.0@, views_of(e.1@))),
{
    assert(lists_views(v.update(pos, e)).len() == v.len());
    assert(lists_views(v).len() == v.len());
    assert forall|j: int| 0 <= j < v.len() implies lists_views(v.update(pos, e))[j] == lists_views(
        v,
    ).update(pos, (e.0@, views_of(e.1@)))[j] by {
        if j != pos {
            assert(v.update(pos, e)[j] == v[j]);
            assert(lists_views(v)[j] == (v[j].0@, views_of(v[j].1@)));
        } else {
            assert(v.update(pos, e)[j] == e);
        }
    }
    assert(lists_views(v.update(pos, e)) =~= lists_views(v).update(pos, (e.0@, views_of(e.1@))));
}

/// One tenant's subscription to one source, as the configuration store
/// records it.
#[derive(Debug, Clone)]
pub struct GuildTome {
    pub id: u32,
    pub guild: u64,
    pub source: String,
}

/// A failed fetch from one source: the source identifier and the cause.
/// One source's failure never fails a whole rebuild; the collection is
/// dropped from aggregation instead.
#[derive(Debug)]
pub struct FetchError {
    pub source: String,
    pub message: String,
}

impl FetchError {
    /// A rendering for logs and user-facing messages.
    pub fn describe(&self) -> (r: String)
        ensures
            r@ == self.source@ + ": "@ + self.message@,
    {
        let mut r = self.source.clone();
        r.append(": ");
        r.append(self.message.as_str());
        proof {
            assert(r@ =~= self.source@ + ": "@ + self.message@);
        }
        r
    }
}

} // verus!
