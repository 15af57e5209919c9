//! The homebrew-API adapter: the response envelope (a data payload or an
//! error message), the tome and spell record shapes, and the baseline
//! catalog payload. Absent or mistyped record fields default rather than
//! fail a fetch; only a malformed document or an envelope without data is
//! an error.

use vstd::prelude::*;
use crate::data::{FetchError, Source, Spell, SpellCollection, SpellV, spell_views};
use crate::json::{bool_field, bool_field_exec, json_get, json_field, level_field, level_field_exec, str_field, str_field_exec, Json};
use crate::outside::{json_of, parse_json};
use crate::schools::SpellSchool;
use crate::text::{split_chars, split_str};

verus! {

/// One fetched homebrew tome, before it becomes a collection.
#[derive(Debug)]
pub struct AvraeTome {
    pub id: String,
    pub name: String,
    pub image: String,
    pub spells: Vec<Spell>,
}

/// The mathematical value of a homebrew tome.
#[verifier::ext_equal]
pub ghost struct AvraeTomeV {
    pub id: Seq<char>,
    pub name: Seq<char>,
    pub image: Seq<char>,
    pub spells: Seq<SpellV>,
}

impl View for AvraeTome {
    type V = AvraeTomeV;

    open spec fn view(&self) -> AvraeTomeV {
        AvraeTomeV {
            id: self.id@,
            name: self.name@,
            image: self.image@,
            spells: spell_views(self.spells@),
        }
    }
}

/// The spell one homebrew record denotes: the classes stand in one
/// comma-separated string; absent or mistyped fields default.
pub open spec fn avrae_spell_v(j: Json) -> SpellV {
    SpellV {
        name: str_field(j, "name"@),
        level: level_field(j, "level"@),
        school: SpellSchool::from_name_spec(str_field(j, "school"@)),
        classes: split_chars(str_field(j, "classes"@), ", "@),
        description: str_field(j, "description"@),
        ritual: bool_field(j, "ritual"@),
    }
}

/// One homebrew spell record normalized.
pub fn spell_from_json(j: &Json) -> (r: Spell)
    ensures
        r@ == avrae_spell_v(*j),
{
    let classes = split_str(str_field_exec(j, "classes").as_str(), ", ");
    let r = Spell {
        name: str_field_exec(j, "name"),
        level: level_field_exec(j, "level"),
        school: SpellSchool::from_name(str_field_exec(j, "school").as_str()),
        classes,
        description: str_field_exec(j, "description"),
        ritual: bool_field_exec(j, "ritual"),
    };
    proof {
        assert(r@ =~= avrae_spell_v(*j));
    }
    r
}

/// The spells of an array of homebrew records.
pub open spec fn avrae_spells_v(a: Seq<Json>) -> Seq<SpellV> {
    a.map_values(|x: Json| avrae_spell_v(x))
}

fn spells_from(a: &Vec<Json>) -> (r: Vec<Spell>)
    ensures
        spell_views(r@) == avrae_spells_v(a@),
{
    let mut r: Vec<Spell> = Vec::new();
    let n = a.len();
    let mut i: usize = 0;
    while i < n
        invariant
            i <= n,
            n == a@.len(),
            r@.len() == i,
            forall|j: int| 0 <= j < i ==> (#[trigger] r@[j])@ == avrae_spell_v(a@[j]),
        decreases n - i,
    {
        r.push(spell_from_json(&a[i]));
        i = i + 1;
    }
    proof {
        assert(spell_views(r@).len() == avrae_spells_v(a@).len());
        assert forall|j: int| 0 <= j < a@.len() implies spell_views(r@)[j] == avrae_spells_v(
            a@,
        )[j] by {
            assert(spell_views(r@)[j] == r@[j]@);
        }
        assert(spell_views(r@) =~= avrae_spells_v(a@));
    }
    r
}

/// The tome one homebrew payload denotes.
pub open spec fn avrae_tome_v(j: Json) -> AvraeTomeV {
    AvraeTomeV {
        id: str_field(j, "_id"@),
        name: str_field(j, "name"@),
        image: str_field(j, "image"@),
        spells: match json_get(j, "spells"@) {
            Some(Json::Arr(a)) => avrae_spells_v(a@),
            _ => seq![],
        },
    }
}

fn tome_from_json(j: &Json) -> (r: AvraeTome)
    ensures
        r@ == avrae_tome_v(*j),
{
    let spells = match json_field(j, "spells") {
        Some(f) => match f {
            Json::Arr(a) => spells_from(a),
            _ => Vec::new(),
        },
        None => Vec::new(),
    };
    let r = AvraeTome {
        id: str_field_exec(j, "_id"),
        name: str_field_exec(j, "name"),
        image: str_field_exec(j, "image"),
        spells,
    };
    proof {
        assert(r@ =~= avrae_tome_v(*j));
    }
    r
}

/// Whether the envelope carries a payload: a `data` field that is not
/// null.
pub open spec fn envelope_has_data(j: Json) -> bool {
    match json_get(j, "data"@) {
        Some(d) => !(d is Null),
        None => false,
    }
}

/// The envelope's payload.
pub open spec fn envelope_data(j: Json) -> Json
    recommends
        envelope_has_data(j),
{
    json_get(j, "data"@)->0
}

/// The message a payload-less envelope reports: the upstream error text,
/// or the stock message when even that is missing.
pub open spec fn envelope_error(j: Json) -> Seq<char> {
    match json_get(j, "error"@) {
        Some(Json::Str(m)) => m@,
        _ => "Expected error message from avrae api."@,
    }
}

fn envelope_error_exec(j: &Json) -> (r: String)
    ensures
        r@ == envelope_error(*j),
{
    match json_field(j, "error") {
        Some(f) => match f {
            Json::Str(m) => m.clone(),
            _ => "Expected error message from avrae api.".to_owned(),
        },
        None => "Expected error message from avrae api.".to_owned(),
    }
}

/// One homebrew tome fetch decoded: `Ok` exactly when the payload is a
/// JSON document whose envelope carries data; otherwise the error names
/// the source and carries the envelope's message.
pub fn get_tome(bytes: &[u8], id: &str) -> (r: Result<AvraeTome, FetchError>)
    ensures
        ({
            let parsed = json_of(bytes@);
            &&& (r is Ok <==> parsed is Some && envelope_has_data(parsed->0))
            &&& match r {
                Ok(t) => t@ == avrae_tome_v(envelope_data(parsed->0)),
                Err(e) => e.source@ == id@ && (parsed is Some ==> e.message@ == envelope_error(
                    parsed->0,
                )),
            }
        }),
{
    match parse_json(bytes) {
        None => Err(
            FetchError { source: id.to_owned(), message: "malformed JSON document".to_owned() },
        ),
        Some(j) => match json_field(&j, "data") {
            Some(d) => match d {
                Json::Null => Err(
                    FetchError { source: id.to_owned(), message: envelope_error_exec(&j) },
                ),
                _ => Ok(tome_from_json(d)),
            },
            None => Err(FetchError { source: id.to_owned(), message: envelope_error_exec(&j) }),
        },
    }
}

/// The tome the baseline payload denotes: its data is a raw array of
/// spell records under the reserved identifier.
pub open spec fn srd_tome_v(data: Json) -> AvraeTomeV {
    AvraeTomeV {
        id: "srd"@,
        name: "SRD"@,
        image: Seq::empty(),
        spells: match data {
            Json::Arr(a) => avrae_spells_v(a@),
            _ => seq![],
        },
    }
}

/// The baseline catalog fetch decoded: `Ok` exactly when the payload is a
/// JSON document whose envelope carries an array of spell records.
pub fn get_srd(bytes: &[u8]) -> (r: Result<AvraeTome, FetchError>)
    ensures
        ({
            let parsed = json_of(bytes@);
            &&& (r is Ok <==> parsed is Some && envelope_has_data(parsed->0) && envelope_data(
                parsed->0,
            ) is Arr)
            &&& match r {
                Ok(t) => t@ == srd_tome_v(envelope_data(parsed->0)),
                Err(e) => e.source@ == "srd"@,
            }
        }),
{
    match parse_json(bytes) {
        None => Err(
            FetchError {
                source: "srd".to_owned(),
                message: "malformed JSON document".to_owned(),
            },
        ),
        Some(j) => {
            match json_field(&j, "data") {
                Some(d) => match d {
                    Json::Arr(a) => {
                        let t = AvraeTome {
                            id: "srd".to_owned(),
                            name: "SRD".to_owned(),
                            image: String::new(),
                            spells: spells_from(a),
                        };
                        proof {
                            assert(t@ =~= srd_tome_v(*d));
                        }
                        Ok(t)
                    },
                    _ => Err(
                        FetchError {
                            source: "srd".to_owned(),
                            message: envelope_error_exec(&j),
                        },
                    ),
                },
                None => Err(
                    FetchError { source: "srd".to_owned(), message: envelope_error_exec(&j) },
                ),
            }
        },
    }
}

impl AvraeTome {
    /// The tome as a normalized collection: an empty image reads as no
    /// image; a homebrew tome carries no supplemental lists.
    pub fn into_collection(self) -> (r: SpellCollection)
        ensures
            r@.id == crate::data::SourceV::Avrae(self@.id),
            r@.name == self@.name,
            r@.image == (if self@.image.len() == 0 {
                Option::<Seq<char>>::None
            } else {
                Some(self@.image)
            }),
            r@.spells == self@.spells,
            r@.spell_lists =~= Seq::<(Seq<char>, Seq<Seq<char>>)>::empty(),
    {
        let image = if self.image.as_str().is_empty() {
            None
        } else {
            Some(self.image)
        };
        SpellCollection {
            id: Source::Avrae(self.id),
            name: self.name,
            image,
            spells: self.spells,
            spell_lists: Vec::new(),
        }
    }
}

} // verus!
