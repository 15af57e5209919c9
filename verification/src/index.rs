//! The aggregation engine's index: the deduplicated spells, the class
//! names in first-seen order, and the class-keyed position index.

use vstd::prelude::*;
use crate::data::{spell_views, Spell, SpellV};
use crate::outside::{lower_of, to_lowercase};
use crate::text::{is_blank, is_blank_str, str_eq, views_of};

verus! {

/// A tenant's built index.
#[derive(Debug)]
pub struct SpellMap {
    spells: Vec<Spell>,
    classes: Vec<String>,
    map: Vec<(String, Vec<usize>)>,
}

/// The mathematical value of a spell index.
#[verifier::ext_equal]
pub ghost struct IndexV {
    pub spells: Seq<SpellV>,
    pub classes: Seq<Seq<char>>,
    pub map: Seq<(Seq<char>, Seq<usize>)>,
}

impl View for SpellMap {
    type V = IndexV;

    closed spec fn view(&self) -> IndexV {
        IndexV {
            spells: spell_views(self.spells@),
            classes: views_of(self.classes@),
            map: self.map@.map_values(|p: (String, Vec<usize>)| (p.0@, p.1@)),
        }
    }
}

/// The positions stored under a class key.
pub open spec fn map_get(m: Seq<(Seq<char>, Seq<usize>)>, k: Seq<char>) -> Option<Seq<usize>>
    decreases m.len(),
{
    if m.len() == 0 {
        None
    } else if m[0].0 == k {
        Some(m[0].1)
    } else {
        map_get(m.drop_first(), k)
    }
}

/// Class keys are distinct and never empty.
pub open spec fn keys_ok(m: Seq<(Seq<char>, Seq<usize>)>) -> bool {
    &&& forall|i: int, j: int| 0 <= i < j < m.len() ==> (#[trigger] m[i]).0 != (#[trigger] m[j]).0
    &&& forall|i: int| 0 <= i < m.len() ==> (#[trigger] m[i]).0.len() > 0
}

/// Every recorded position lies below `bound`, and one class's positions
/// are strictly increasing, so no class records a position twice.
pub open spec fn positions_ok(m: Seq<(Seq<char>, Seq<usize>)>, bound: int) -> bool {
    &&& forall|i: int, j: int|
        0 <= i < m.len() && 0 <= j < (#[trigger] m[i]).1.len() ==> #[trigger] m[i].1[j] < bound
    &&& forall|i: int, j1: int, j2: int|
        0 <= i < m.len() && 0 <= j1 < j2 < m[i].1.len() ==> #[trigger] m[i].1[j1] < #[trigger] m[i].1[j2]
}

impl IndexV {
    /// The index's invariant.
    pub open spec fn wf(self) -> bool {
        keys_ok(self.map) && positions_ok(self.map, self.spells.len() as int)
    }

    /// The empty index.
    pub open spec fn empty() -> IndexV {
        IndexV { spells: seq![], classes: seq![], map: seq![] }
    }
}

/// `classes` extended with every class of `cs`, in order, that is neither
/// blank nor already present.
pub open spec fn classes_after(classes: Seq<Seq<char>>, cs: Seq<Seq<char>>) -> Seq<Seq<char>>
    decreases cs.len(),
{
    if cs.len() == 0 {
        classes
    } else {
        let step = if is_blank(cs[0]) || classes.contains(cs[0]) {
            classes
        } else {
            classes.push(cs[0])
        };
        classes_after(step, cs.drop_first())
    }
}

/// Position `i` appended once under key `k`: to the first entry with that
/// key unless already recorded there, or as a new entry at the end.
pub open spec fn map_upsert(m: Seq<(Seq<char>, Seq<usize>)>, k: Seq<char>, i: usize) -> Seq<
    (Seq<char>, Seq<usize>),
>
    decreases m.len(),
{
    if m.len() == 0 {
        seq![(k, seq![i])]
    } else if m[0].0 == k {
        if m[0].1.len() > 0 && m[0].1.last() == i {
            m
        } else {
            seq![(m[0].0, m[0].1.push(i))] + m.drop_first()
        }
    } else {
        seq![m[0]] + map_upsert(m.drop_first(), k, i)
    }
}

/// Position `i` recorded under the lower-cased key of every non-blank
/// class of `cs`, in order.
pub open spec fn map_after(m: Seq<(Seq<char>, Seq<usize>)>, cs: Seq<Seq<char>>, i: usize) -> Seq<
    (Seq<char>, Seq<usize>),
>
    decreases cs.len(),
{
    if cs.len() == 0 {
        m
    } else {
        let step = if is_blank(cs[0]) {
            m
        } else {
            map_upsert(m, lower_of(cs[0]), i)
        };
        map_after(step, cs.drop_first(), i)
    }
}

/// What adding one spell does to an index: the spell goes to the end of
/// `spells`; each of its non-blank classes is recorded in `classes`
/// (original case, first seen wins) and in `map` (lower-cased key).
pub open spec fn spec_add(v: IndexV, s: SpellV) -> IndexV {
    IndexV {
        spells: v.spells.push(s),
        classes: classes_after(v.classes, s.classes),
        map: map_after(v.map, s.classes, v.spells.len() as usize),
    }
}

/// Whether a string of `v` equals `s`.
pub fn contains_string(v: &Vec<String>, s: &String) -> (r: bool)
    ensures
        r == views_of(v@).contains(s@),
{
    let n = v.len();
    let mut i: usize = 0;
    while i < n
        invariant
            i <= n,
            n == v@.len(),
            forall|j: int| 0 <= j < i ==> views_of(v@)[j] != s@,
        decreases n - i,
    {
        if str_eq(v[i].as_str(), s.as_str()) {
            proof {
                assert(views_of(v@)[i as int] == s@);
            }
            return true;
        }
        i = i + 1;
    }
    proof {
        assert(forall|j: int| 0 <= j < views_of(v@).len() ==> views_of(v@)[j] != s@);
    }
    false
}

/// The index of the first map entry with key `k`.
fn find_key(m: &Vec<(String, Vec<usize>)>, k: &str) -> (r: Option<usize>)
    ensures
        match r {
            Some(idx) => idx < m@.len() && m@[idx as int].0@ == k@ && forall|j: int|
                0 <= j < idx ==> m@[j].0@ != k@,
            None => forall|j: int| 0 <= j < m@.len() ==> m@[j].0@ != k@,
        },
{
    let n = m.len();
    let mut i: usize = 0;
    while i < n
        invariant
            i <= n,
            n == m@.len(),
            forall|j: int| 0 <= j < i ==> m@[j].0@ != k@,
        decreases n - i,
    {
        if str_eq(m[i].0.as_str(), k) {
            return Some(i);
        }
        i = i + 1;
    }
    None
}

/// `map_upsert` acts on the first entry whose key matches.
proof fn lemma_map_upsert_found(m: Seq<(Seq<char>, Seq<usize>)>, k: Seq<char>, i: usize, idx: int)
    requires
        0 <= idx < m.len(),
        m[idx].0 == k,
        forall|j: int| 0 <= j < idx ==> m[j].0 != k,
    ensures
        map_upsert(m, k, i) == (if m[idx].1.len() > 0 && m[idx].1.last() == i {
            m
        } else {
            m.update(idx, (m[idx].0, m[idx].1.push(i)))
        }),
    decreases m.len(),
{
    if idx == 0 {
        if !(m[0].1.len() > 0 && m[0].1.last() == i) {
            assert(map_upsert(m, k, i) =~= m.update(0, (m[0].0, m[0].1.push(i))));
        }
    } else {
        lemma_map_upsert_found(m.drop_first(), k, i, idx - 1);
        if m[idx].1.len() > 0 && m[idx].1.last() == i {
            assert(map_upsert(m, k, i) =~= m);
        } else {
            assert(map_upsert(m, k, i) =~= m.update(idx, (m[idx].0, m[idx].1.push(i))));
        }
    }
}

/// `map_upsert` adds a new entry at the end when no key matches.
proof fn lemma_map_upsert_new(m: Seq<(Seq<char>, Seq<usize>)>, k: Seq<char>, i: usize)
    requires
        forall|j: int| 0 <= j < m.len() ==> m[j].0 != k,
    ensures
        map_upsert(m, k, i) == m.push((k, seq![i])),
    decreases m.len(),
{
    if m.len() == 0 {
        assert(map_upsert(m, k, i) =~= m.push((k, seq![i])));
    } else {
        lemma_map_upsert_new(m.drop_first(), k, i);
        assert(map_upsert(m, k, i) =~= m.push((k, seq![i])));
    }
}

/// Folding one more class into `classes_after`.
proof fn lemma_classes_after_push(classes: Seq<Seq<char>>, xs: Seq<Seq<char>>, x: Seq<char>)
    ensures
        classes_after(classes, xs.push(x)) == ({
            let acc = classes_after(classes, xs);
            if is_blank(x) || acc.contains(x) {
                acc
            } else {
                acc.push(x)
            }
        }),
    decreases xs.len(),
{
    if xs.len() == 0 {
        assert(xs.push(x)[0] == x);
        assert(xs.push(x).drop_first() =~= xs);
        assert(classes_after(classes, xs) == classes);
        let step = if is_blank(x) || classes.contains(x) {
            classes
        } else {
            classes.push(x)
        };
        assert(classes_after(classes, xs.push(x)) == classes_after(step, xs));
        assert(classes_after(step, xs) == step);
    } else {
        assert(xs.push(x)[0] == xs[0]);
        assert(xs.push(x).drop_first() =~= xs.drop_first().push(x));
        let step = if is_blank(xs[0]) || classes.contains(xs[0]) {
            classes
        } else {
            classes.push(xs[0])
        };
        assert(classes_after(classes, xs.push(x)) == classes_after(step, xs.drop_first().push(x)));
        assert(classes_after(classes, xs) == classes_after(step, xs.drop_first()));
        lemma_classes_after_push(step, xs.drop_first(), x);
    }
}

/// Folding one more class into `map_after`.
proof fn lemma_map_after_push(
    m: Seq<(Seq<char>, Seq<usize>)>,
    xs: Seq<Seq<char>>,
    x: Seq<char>,
    i: usize,
)
    ensures
        map_after(m, xs.push(x), i) == ({
            let acc = map_after(m, xs, i);
            if is_blank(x) {
                acc
            } else {
                map_upsert(acc, lower_of(x), i)
            }
        }),
    decreases xs.len(),
{
    if xs.len() == 0 {
        assert(xs.push(x)[0] == x);
        assert(xs.push(x).drop_first() =~= xs);
        assert(map_after(m, xs, i) == m);
        let step = if is_blank(x) {
            m
        } else {
            map_upsert(m, lower_of(x), i)
        };
        assert(map_after(m, xs.push(x), i) == map_after(step, xs, i));
        assert(map_after(step, xs, i) == step);
    } else {
        assert(xs.push(x)[0] == xs[0]);
        assert(xs.push(x).drop_first() =~= xs.drop_first().push(x));
        let step = if is_blank(xs[0]) {
            m
        } else {
            map_upsert(m, lower_of(xs[0]), i)
        };
        assert(map_after(m, xs.push(x), i) == map_after(step, xs.drop_first().push(x), i));
        assert(map_after(m, xs, i) == map_after(step, xs.drop_first(), i));
        lemma_map_after_push(step, xs.drop_first(), x, i);
    }
}

impl SpellMap {
    /// The index's invariant, at the view.
    pub open spec fn wf(&self) -> bool {
        self@.wf()
    }

    pub fn new() -> (r: SpellMap)
        ensures
            r@ == IndexV::empty(),
            r.wf(),
    {
        let r = SpellMap { spells: Vec::new(), classes: Vec::new(), map: Vec::new() };
        proof {
            assert(r@.spells =~= IndexV::empty().spells);
            assert(r@.classes =~= IndexV::empty().classes);
            assert(r@.map =~= IndexV::empty().map);
        }
        r
    }

    /// How many spells the index holds.
    pub fn spell_count(&self) -> (r: usize)
        ensures
            r == self@.spells.len(),
    {
        self.spells.len()
    }

    /// How many distinct class names the index observed.
    pub fn class_count(&self) -> (r: usize)
        ensures
            r == self@.classes.len(),
    {
        self.classes.len()
    }

    /// The spell at a position.
    pub fn get_spell(&self, i: usize) -> (r: &Spell)
        requires
            i < self@.spells.len(),
        ensures
            r@ == self@.spells[i as int],
    {
        &self.spells[i]
    }

    /// Appends one spell and records each of its non-blank classes, the
    /// class name case-preserved in `classes` and lower-cased in `map`.
    pub fn add_spell(&mut self, spell: Spell)
        requires
            old(self).wf(),
        ensures
            final(self)@ == spec_add(old(self)@, spell@),
            final(self).wf(),
    {
        let i = self.spells.len();
        let n = spell.classes.len();
        let ghost v0 = self@;
        let ghost cs = views_of(spell.classes@);
        proof {
            assert(cs.take(0) =~= Seq::<Seq<char>>::empty());
        }
        let mut c: usize = 0;
        while c < n
            invariant
                c <= n,
                n == spell.classes@.len(),
                cs == views_of(spell.classes@),
                i == v0.spells.len(),
                spell_views(self.spells@) == v0.spells,
                views_of(self.classes@) == classes_after(v0.classes, cs.take(c as int)),
                self@.map == map_after(v0.map, cs.take(c as int), i),
                keys_ok(self@.map),
                positions_ok(self@.map, i + 1),
            decreases n - c,
        {
            proof {
                assert(cs.take(c + 1) =~= cs.take(c as int).push(cs[c as int]));
                lemma_classes_after_push(v0.classes, cs.take(c as int), cs[c as int]);
                lemma_map_after_push(v0.map, cs.take(c as int), cs[c as int], i);
            }
            let class = &spell.classes[c];
            proof {
                assert(cs[c as int] == class@);
            }
            if !is_blank_str(class.as_str()) {
                if !contains_string(&self.classes, class) {
                    let ghost old_classes = views_of(self.classes@);
                    self.classes.push(class.clone());
                    proof {
                        assert(views_of(self.classes@) =~= old_classes.push(cs[c as int]));
                    }
                }
                let key = to_lowercase(class.as_str());
                let ghost m0 = self@.map;
                proof {
                    assert(class@.len() > 0);
                    assert(key@.len() > 0);
                }
                match find_key(&self.map, key.as_str()) {
                    Some(idx) => {
                        let mut entry = self.map.remove(idx);
                        let elen = entry.1.len();
                        let ghost oldps = entry.1@;
                        if elen > 0 && entry.1[elen - 1] == i {
                            self.map.insert(idx, entry);
                            proof {
                                lemma_map_upsert_found(m0, key@, i, idx as int);
                                assert(self@.map =~= m0);
                            }
                        } else {
                            proof {
                                assert forall|j: int| 0 <= j < oldps.len() implies oldps[j]
                                    < i by {
                                    assert(m0[idx as int].1[j] < i + 1);
                                    if j < oldps.len() - 1 {
                                        assert(m0[idx as int].1[j] < m0[idx as int].1[
                                        oldps.len() - 1]);
                                    }
                                }
                            }
                            entry.1.push(i);
                            self.map.insert(idx, entry);
                            proof {
                                lemma_map_upsert_found(m0, key@, i, idx as int);
                                assert(self@.map =~= m0.update(
                                    idx as int,
                                    (m0[idx as int].0, m0[idx as int].1.push(i)),
                                ));
                            }
                        }
                    },
                    None => {
                        let mut ps: Vec<usize> = Vec::new();
                        ps.push(i);
                        self.map.push((key, ps));
                        proof {
                            lemma_map_upsert_new(m0, key@, i);
                            assert(ps@ =~= seq![i]);
                            assert(self@.map =~= m0.push((key@, seq![i])));
                        }
                    },
                }
            }
            c = c + 1;
        }
        proof {
            assert(cs.take(n as int) =~= cs);
        }
        let ghost before_push = spell_views(self.spells@);
        self.spells.push(spell);
        proof {
            assert(spell_views(self.spells@) =~= before_push.push(spell@));
        }
    }

    /// The classes observed, in first-seen order and original case.
    pub fn get_classes(&self) -> (r: &Vec<String>)
        ensures
            views_of(r@) == self@.classes,
    {
        &self.classes
    }

    /// The spells of one class, by its lower-cased key; `None` when the
    /// class was never indexed.
    pub fn get_spells(&self, class: &String) -> (r: Option<Vec<&Spell>>)
        requires
            self.wf(),
        ensures
            match r {
                Some(v) => match map_get(self@.map, class@) {
                    Some(ps) => v@.len() == ps.len() && forall|j: int|
                        0 <= j < ps.len() ==> (#[trigger] v@[j])@ == self@.spells[ps[j] as int],
                    None => false,
                },
                None => map_get(self@.map, class@) is None,
            },
    {
        let ghost mv = self@.map;
        let found = find_key(&self.map, class.as_str());
        match found {
            None => {
                proof {
                    lemma_map_get_none(mv, class@);
                }
                None
            },
            Some(idx) => {
                proof {
                    lemma_map_get_found(mv, class@, idx as int);
                }
                let entry = &self.map[idx];
                let m = entry.1.len();
                let mut v: Vec<&Spell> = Vec::new();
                let mut j: usize = 0;
                while j < m
                    invariant
                        j <= m,
                        idx < self.map@.len(),
                        m == self.map@[idx as int].1@.len(),
                        self.wf(),
                        entry == &self.map@[idx as int],
                        v@.len() == j,
                        forall|j2: int|
                            0 <= j2 < j ==> (#[trigger] v@[j2])@ == self@.spells[self.map@[
                            idx as int].1@[j2] as int],
                    decreases m - j,
                {
                    let p = entry.1[j];
                    proof {
                        assert(self@.map[idx as int].1[j as int] < self@.spells.len());
                    }
                    v.push(&self.spells[p]);
                    j = j + 1;
                }
                Some(v)
            },
        }
    }
}

/// Whether position `p` is recorded under key `k`.
pub open spec fn map_has_position(m: Seq<(Seq<char>, Seq<usize>)>, k: Seq<char>, p: int) -> bool {
    match map_get(m, k) {
        Some(ps) => exists|j: int| 0 <= j < ps.len() && ps[j] as int == p,
        None => false,
    }
}

/// What one upsert does to lookups: the touched key gains the position at
/// the end unless it already stands there; other keys are untouched.
pub proof fn lemma_map_upsert_get(m: Seq<(Seq<char>, Seq<usize>)>, k: Seq<char>, i: usize)
    ensures
        match map_get(m, k) {
            None => map_get(map_upsert(m, k, i), k) == Some(seq![i]),
            Some(ps) => map_get(map_upsert(m, k, i), k) == Some(
                if ps.len() > 0 && ps.last() == i {
                    ps
                } else {
                    ps.push(i)
                },
            ),
        },
        forall|k2: Seq<char>| k2 != k ==> map_get(map_upsert(m, k, i), k2) == map_get(m, k2),
    decreases m.len(),
{
    let r = map_upsert(m, k, i);
    if m.len() == 0 {
        assert(r == seq![(k, seq![i])]);
        assert(map_get(r, k) == Some(seq![i]));
        assert forall|k2: Seq<char>| k2 != k implies map_get(r, k2) == map_get(m, k2) by {
            assert(r.drop_first() =~= Seq::<(Seq<char>, Seq<usize>)>::empty());
            assert(map_get(r, k2) == map_get(r.drop_first(), k2));
            assert(map_get(r.drop_first(), k2) is None);
            assert(map_get(m, k2) is None);
        }
    } else if m[0].0 == k {
        if m[0].1.len() > 0 && m[0].1.last() == i {
        } else {
            assert(r == seq![(m[0].0, m[0].1.push(i))] + m.drop_first());
            assert(r[0] == (m[0].0, m[0].1.push(i)));
            assert forall|k2: Seq<char>| k2 != k implies map_get(r, k2) == map_get(m, k2) by {
                assert(r.drop_first() =~= m.drop_first());
                assert(map_get(r, k2) == map_get(r.drop_first(), k2));
                assert(map_get(m, k2) == map_get(m.drop_first(), k2));
            }
        }
    } else {
        lemma_map_upsert_get(m.drop_first(), k, i);
        assert(r == seq![m[0]] + map_upsert(m.drop_first(), k, i));
        assert(r[0] == m[0]);
        assert(r.drop_first() =~= map_upsert(m.drop_first(), k, i));
        assert forall|k2: Seq<char>| k2 != k implies map_get(r, k2) == map_get(m, k2) by {
            if k2 != m[0].0 {
                assert(map_get(r, k2) == map_get(map_upsert(m.drop_first(), k, i), k2));
                assert(map_get(m, k2) == map_get(m.drop_first(), k2));
            }
        }
    }
}

/// Recording one spell's classes never unrecords a position.
pub proof fn lemma_map_after_preserves(
    m: Seq<(Seq<char>, Seq<usize>)>,
    cs: Seq<Seq<char>>,
    i: usize,
    k: Seq<char>,
    p: int,
)
    requires
        map_has_position(m, k, p),
    ensures
        map_has_position(map_after(m, cs, i), k, p),
    decreases cs.len(),
{
    if cs.len() > 0 {
        let step = if is_blank(cs[0]) {
            m
        } else {
            map_upsert(m, lower_of(cs[0]), i)
        };
        if !is_blank(cs[0]) {
            lemma_map_upsert_get(m, lower_of(cs[0]), i);
            if k == lower_of(cs[0]) {
                assert(map_get(m, k) is Some);
                let ps = map_get(m, k)->0;
                assert(exists|j2: int| 0 <= j2 < ps.len() && ps[j2] as int == p);
                let j = choose|j: int| 0 <= j < ps.len() && ps[j] as int == p;
                if ps.len() > 0 && ps.last() == i {
                    assert(map_get(step, k) == Some(ps));
                    assert((map_get(step, k)->0)[j] as int == p);
                } else {
                    assert(map_get(step, k) == Some(ps.push(i)));
                    assert(ps.push(i)[j] as int == p);
                    assert((map_get(step, k)->0)[j] as int == p);
                }
                assert(map_has_position(step, k, p));
            } else {
                assert(map_get(step, k) == map_get(m, k));
                assert(map_has_position(step, k, p));
            }
        }
        lemma_map_after_preserves(step, cs.drop_first(), i, k, p);
    }
}

/// Recording one spell's classes records its position under each of its
/// non-empty classes.
pub proof fn lemma_map_after_records(
    m: Seq<(Seq<char>, Seq<usize>)>,
    cs: Seq<Seq<char>>,
    i: usize,
    c: int,
)
    requires
        0 <= c < cs.len(),
        !is_blank(cs[c]),
    ensures
        map_has_position(map_after(m, cs, i), lower_of(cs[c]), i as int),
    decreases cs.len(),
{
    let step = if is_blank(cs[0]) {
        m
    } else {
        map_upsert(m, lower_of(cs[0]), i)
    };
    if c == 0 {
        let k = lower_of(cs[0]);
        lemma_map_upsert_get(m, k, i);
        assert(map_has_position(step, k, i as int)) by {
            match map_get(m, k) {
                None => {
                    assert(map_get(step, k) == Some(seq![i]));
                    let qs = map_get(step, k)->0;
                    assert(qs[0] as int == i as int);
                },
                Some(ps) => {
                    if ps.len() > 0 && ps.last() == i {
                        assert(map_get(step, k) == Some(ps));
                        let qs = map_get(step, k)->0;
                        assert(qs[ps.len() - 1] as int == i as int);
                    } else {
                        assert(map_get(step, k) == Some(ps.push(i)));
                        let qs = map_get(step, k)->0;
                        assert(qs[ps.len() as int] as int == i as int);
                    }
                },
            }
        }
        lemma_map_after_preserves(step, cs.drop_first(), i, k, i as int);
    } else {
        lemma_map_after_records(step, cs.drop_first(), i, c - 1);
    }
}

/// Every non-blank class of every spell leads back to the spell: the
/// class index records the spell's position under the class's
/// lower-cased key.
pub open spec fn class_complete(v: IndexV) -> bool {
    forall|i: int, c: int|
        0 <= i < v.spells.len() && 0 <= c < v.spells[i].classes.len() && !is_blank(
            #[trigger] v.spells[i].classes[c],
        ) ==> map_has_position(v.map, lower_of(v.spells[i].classes[c]), i)
}

/// Adding one spell keeps the index complete.
pub proof fn lemma_spec_add_complete(v: IndexV, s: SpellV)
    requires
        class_complete(v),
        v.spells.len() < usize::MAX,
    ensures
        class_complete(spec_add(v, s)),
{
    let w = spec_add(v, s);
    let pos = v.spells.len() as usize;
    assert forall|i: int, c: int|
        0 <= i < w.spells.len() && 0 <= c < w.spells[i].classes.len() && !is_blank(
            #[trigger] w.spells[i].classes[c],
        ) implies map_has_position(
        w.map,
        lower_of(w.spells[i].classes[c]),
        i,
    ) by {
        if i < v.spells.len() {
            assert(w.spells[i] == v.spells[i]);
            lemma_map_after_preserves(
                v.map,
                s.classes,
                pos,
                lower_of(v.spells[i].classes[c]),
                i,
            );
        } else {
            assert(w.spells[i] == s);
            lemma_map_after_records(v.map, s.classes, pos, c);
        }
    }
}

/// The class names that complete a typed prefix, title-cased for display.
pub open spec fn prefixed_titles(cs: Seq<Seq<char>>, p: Seq<char>) -> Seq<Seq<char>>
    decreases cs.len(),
{
    if cs.len() == 0 {
        seq![]
    } else {
        prefixed_titles(cs.drop_last(), p) + (if crate::text::starts_with_spec(cs.last(), p) {
            seq![crate::outside::title_of(cs.last())]
        } else {
            seq![]
        })
    }
}

/// The classes that complete a typed prefix, in observed order,
/// title-cased for display.
pub fn autocomplete_classes(classes: &Vec<String>, partial: &str) -> (r: Vec<String>)
    ensures
        views_of(r@) == prefixed_titles(views_of(classes@), partial@),
{
    let ghost cvs = views_of(classes@);
    let mut r: Vec<String> = Vec::new();
    let n = classes.len();
    proof {
        assert(cvs.take(0) =~= Seq::<Seq<char>>::empty());
        assert(views_of(r@) =~= prefixed_titles(cvs.take(0), partial@));
    }
    let mut i: usize = 0;
    while i < n
        invariant
            i <= n,
            n == classes@.len(),
            cvs == views_of(classes@),
            views_of(r@) == prefixed_titles(cvs.take(i as int), partial@),
        decreases n - i,
    {
        proof {
            assert(cvs.take(i + 1).drop_last() =~= cvs.take(i as int));
            assert(cvs.take(i + 1).last() == cvs[i as int]);
            assert(cvs[i as int] == classes@[i as int]@);
        }
        if crate::text::str_starts_with(classes[i].as_str(), partial) {
            let ghost r0 = r@;
            let t = crate::outside::to_title(classes[i].as_str());
            r.push(t);
            proof {
                crate::text::lemma_views_of_push(r0, t);
                assert(views_of(r@) =~= prefixed_titles(cvs.take(i + 1), partial@));
            }
        } else {
            proof {
                assert(views_of(r@) =~= prefixed_titles(cvs.take(i + 1), partial@));
            }
        }
        i = i + 1;
    }
    proof {
        assert(cvs.take(n as int) =~= cvs);
    }
    r
}

/// `map_get` finds the first entry with the key.
proof fn lemma_map_get_found(m: Seq<(Seq<char>, Seq<usize>)>, k: Seq<char>, idx: int)
    requires
        0 <= idx < m.len(),
        m[idx].0 == k,
        forall|j: int| 0 <= j < idx ==> m[j].0 != k,
    ensures
        map_get(m, k) == Some(m[idx].1),
    decreases m.len(),
{
    if idx > 0 {
        lemma_map_get_found(m.drop_first(), k, idx - 1);
    }
}

/// `map_get` finds nothing when no key matches.
proof fn lemma_map_get_none(m: Seq<(Seq<char>, Seq<usize>)>, k: Seq<char>)
    requires
        forall|j: int| 0 <= j < m.len() ==> m[j].0 != k,
    ensures
        map_get(m, k) is None,
    decreases m.len(),
{
    if m.len() > 0 {
        lemma_map_get_none(m.drop_first(), k);
    }
}

} // verus!
