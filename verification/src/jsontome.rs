//! The passthrough-JSON adapter: a user-supplied document carrying no
//! spells of its own, only named spell lists that assign classes during
//! the merge. The collection is named by the URL's trailing path segment.

use vstd::prelude::*;
use crate::data::{lists_views, FetchError, Source, SpellCollection, SpellLists};
use crate::json::{json_get, json_field, Json};
use crate::outside::{json_of, parse_json};
use crate::text::{lemma_find_sep_bounds, split_chars, split_str, views_of};

verus! {

/// One fetched passthrough document, before it becomes a collection.
#[derive(Debug)]
pub struct JsonTome {
    pub url: String,
    pub spell_lists: SpellLists,
}

/// The mathematical value of a passthrough document.
#[verifier::ext_equal]
pub ghost struct JsonTomeV {
    pub url: Seq<char>,
    pub spell_lists: Seq<(Seq<char>, Seq<Seq<char>>)>,
}

impl View for JsonTome {
    type V = JsonTomeV;

    open spec fn view(&self) -> JsonTomeV {
        JsonTomeV { url: self.url@, spell_lists: lists_views(self.spell_lists@) }
    }
}

/// The string items of an array value, others skipped.
pub open spec fn str_items(a: Seq<Json>) -> Seq<Seq<char>>
    decreases a.len(),
{
    if a.len() == 0 {
        seq![]
    } else {
        str_items(a.drop_last()) + (match a.last() {
            Json::Str(s) => seq![s@],
            _ => seq![],
        })
    }
}

/// One named spell list per object field; a non-array member list reads
/// as empty.
pub open spec fn entries_of(fs: Seq<(String, Json)>) -> Seq<(Seq<char>, Seq<Seq<char>>)>
    decreases fs.len(),
{
    if fs.len() == 0 {
        seq![]
    } else {
        entries_of(fs.drop_last()) + seq![
            (fs.last().0@, match fs.last().1 {
                Json::Arr(a) => str_items(a@),
                _ => seq![],
            }),
        ]
    }
}

/// The spell lists a passthrough document declares under `spell_lists`.
pub open spec fn lists_of_json(j: Json) -> Seq<(Seq<char>, Seq<Seq<char>>)> {
    match json_get(j, "spell_lists"@) {
        Some(Json::Obj(fs)) => entries_of(fs@),
        _ => seq![],
    }
}

fn str_items_exec(a: &Vec<Json>) -> (r: Vec<String>)
    ensures
        views_of(r@) == str_items(a@),
{
    let mut r: Vec<String> = Vec::new();
    let n = a.len();
    proof {
        assert(a@.take(0) =~= Seq::<Json>::empty());
        assert(views_of(r@) =~= str_items(a@.take(0)));
    }
    let mut i: usize = 0;
    while i < n
        invariant
            i <= n,
            n == a@.len(),
            views_of(r@) == str_items(a@.take(i as int)),
        decreases n - i,
    {
        proof {
            assert(a@.take(i + 1).drop_last() =~= a@.take(i as int));
            assert(a@.take(i + 1).last() == a@[i as int]);
        }
        match &a[i] {
            Json::Str(s) => {
                let ghost r0 = r@;
                let sc = s.clone();
                r.push(sc);
                proof {
                    crate::text::lemma_views_of_push(r0, sc);
                    assert(views_of(r@) =~= str_items(a@.take(i + 1)));
                }
            },
            _ => {
                proof {
                    assert(views_of(r@) =~= str_items(a@.take(i + 1)));
                }
            },
        }
        i = i + 1;
    }
    proof {
        assert(a@.take(n as int) =~= a@);
    }
    r
}

fn entries_exec(fs: &Vec<(String, Json)>) -> (r: SpellLists)
    ensures
        lists_views(r@) == entries_of(fs@),
{
    let mut r: SpellLists = Vec::new();
    let n = fs.len();
    proof {
        assert(fs@.take(0) =~= Seq::<(String, Json)>::empty());
        assert(lists_views(r@) =~= entries_of(fs@.take(0)));
    }
    let mut i: usize = 0;
    while i < n
        invariant
            i <= n,
            n == fs@.len(),
            lists_views(r@) == entries_of(fs@.take(i as int)),
        decreases n - i,
    {
        proof {
            assert(fs@.take(i + 1).drop_last() =~= fs@.take(i as int));
            assert(fs@.take(i + 1).last() == fs@[i as int]);
        }
        let members = match &fs[i].1 {
            Json::Arr(a) => str_items_exec(a),
            _ => Vec::new(),
        };
        let entry = (fs[i].0.clone(), members);
        let ghost ev = entry;
        let ghost r0 = r@;
        r.push(entry);
        proof {
            crate::data::lemma_lists_views_push(r0, ev);
            assert(views_of(ev.1@) == (match fs@[i as int].1 {
                Json::Arr(a) => str_items(a@),
                _ => seq![],
            }));
            assert(lists_views(r@) =~= entries_of(fs@.take(i + 1)));
        }
        i = i + 1;
    }
    proof {
        assert(fs@.take(n as int) =~= fs@);
    }
    r
}

/// One passthrough fetch decoded: `Ok` exactly when the payload is a
/// JSON document; its lists come from the `spell_lists` field, which may
/// be missing.
pub fn get_json(bytes: &[u8], url: &str) -> (r: Result<JsonTome, FetchError>)
    ensures
        ({
            let parsed = json_of(bytes@);
            &&& (r is Ok <==> parsed is Some)
            &&& match r {
                Ok(t) => t@.url == url@ && t@.spell_lists == lists_of_json(parsed->0),
                Err(e) => e.source@ == url@,
            }
        }),
{
    match parse_json(bytes) {
        None => Err(
            FetchError { source: url.to_owned(), message: "malformed JSON document".to_owned() },
        ),
        Some(j) => {
            let spell_lists = match json_field(&j, "spell_lists") {
                Some(f) => match f {
                    Json::Obj(fs) => entries_exec(fs),
                    _ => Vec::new(),
                },
                None => Vec::new(),
            };
            let t = JsonTome { url: url.to_owned(), spell_lists };
            proof {
                assert(t@.spell_lists =~= lists_of_json(j));
            }
            Ok(t)
        },
    }
}

impl JsonTome {
    /// The document as a normalized collection, named by the URL's
    /// trailing path segment; it carries no spells and no image.
    pub fn into_collection(self) -> (r: SpellCollection)
        ensures
            r@.id == crate::data::SourceV::Json(self@.url),
            r@.name == split_chars(self@.url, "/"@).last(),
            r@.image is None,
            r@.spells =~= Seq::<crate::data::SpellV>::empty(),
            r@.spell_lists == self@.spell_lists,
    {
        let parts = split_str(self.url.as_str(), "/");
        proof {
            lemma_find_sep_bounds(self.url@, "/"@);
            assert(views_of(parts@).len() >= 1);
        }
        let name = parts[parts.len() - 1].clone();
        proof {
            assert(views_of(parts@)[parts@.len() - 1] == parts@[parts@.len() - 1]@);
            assert(name@ == split_chars(self.url@, "/"@).last());
        }
        SpellCollection {
            id: Source::Json(self.url),
            name,
            image: None,
            spells: Vec::new(),
            spell_lists: self.spell_lists,
        }
    }
}

} // verus!
