//! The two caches: the process-wide remote-catalog cache (file index,
//! per-key documents, baseline catalog — each cell written at most once
//! and never invalidated) and the per-tenant index cache (replaced
//! wholesale on rebuild, so readers always see a consistent snapshot).

use vstd::prelude::*;
use crate::data::{CollectionV, SpellCollection};
use crate::index::{IndexV, SpellMap};
use crate::json::Json;
use crate::merge::pairs_views;
use crate::text::str_eq;

verus! {

/// The per-tenant entry sequence, at the view.
pub open spec fn tenant_views(v: Seq<(u64, SpellMap)>) -> Seq<(u64, IndexV)> {
    v.map_values(|p: (u64, SpellMap)| (p.0, p.1@))
}

/// The index installed for a tenant, if any.
pub open spec fn tenant_get(m: Seq<(u64, IndexV)>, t: u64) -> Option<IndexV>
    decreases m.len(),
{
    if m.len() == 0 {
        None
    } else if m[0].0 == t {
        Some(m[0].1)
    } else {
        tenant_get(m.drop_first(), t)
    }
}

/// A tenant's index replaced in place, or a new entry appended.
pub open spec fn tenant_put(m: Seq<(u64, IndexV)>, t: u64, v: IndexV) -> Seq<(u64, IndexV)>
    decreases m.len(),
{
    if m.len() == 0 {
        seq![(t, v)]
    } else if m[0].0 == t {
        seq![(t, v)] + m.drop_first()
    } else {
        seq![m[0]] + tenant_put(m.drop_first(), t, v)
    }
}

/// The per-tenant index cache. A missing tenant means the index was
/// never built: the caller reports the rebuild-first condition.
#[derive(Debug)]
pub struct TenantCache {
    entries: Vec<(u64, SpellMap)>,
}

impl View for TenantCache {
    type V = Seq<(u64, IndexV)>;

    closed spec fn view(&self) -> Seq<(u64, IndexV)> {
        tenant_views(self.entries@)
    }
}

impl TenantCache {
    /// Tenants are recorded once, and every installed index is
    /// well-formed.
    pub open spec fn wf(&self) -> bool {
        &&& forall|i: int, j: int| 0 <= i < j < self@.len() ==> (#[trigger] self@[i]).0 != (
        #[trigger] self@[j]).0
        &&& forall|i: int| 0 <= i < self@.len() ==> (#[trigger] self@[i]).1.wf()
    }

    pub fn new() -> (r: TenantCache)
        ensures
            r@ == Seq::<(u64, IndexV)>::empty(),
            r.wf(),
    {
        let r = TenantCache { entries: Vec::new() };
        proof {
            assert(r@ =~= Seq::<(u64, IndexV)>::empty());
        }
        r
    }

    /// The installed index of a tenant.
    pub fn get(&self, tenant: u64) -> (r: Option<&SpellMap>)
        requires
            self.wf(),
        ensures
            match r {
                Some(sm) => tenant_get(self@, tenant) == Some(sm@) && sm.wf(),
                None => tenant_get(self@, tenant) is None,
            },
    {
        let n = self.entries.len();
        let mut i: usize = 0;
        proof {
            assert(self@.skip(0) =~= self@);
        }
        while i < n
            invariant
                i <= n,
                n == self.entries@.len(),
                self@.len() == n,
                self.wf(),
                tenant_get(self@, tenant) == tenant_get(self@.skip(i as int), tenant),
            decreases n - i,
        {
            proof {
                assert(self@.skip(i as int)[0] == self@[i as int]);
                assert(self@[i as int] == (self.entries@[i as int].0, self.entries@[i as int].1@));
            }
            if self.entries[i].0 == tenant {
                return Some(&self.entries[i].1);
            }
            proof {
                assert(self@.skip(i as int).drop_first() =~= self@.skip(i + 1));
            }
            i = i + 1;
        }
        proof {
            assert(self@.skip(n as int).len() == 0);
        }
        None
    }

    /// Installs a tenant's index wholesale: the previous snapshot is
    /// replaced, never mutated in place.
    pub fn install(&mut self, tenant: u64, sm: SpellMap)
        requires
            old(self).wf(),
            sm.wf(),
        ensures
            final(self)@ == tenant_put(old(self)@, tenant, sm@),
            final(self).wf(),
            tenant_get(final(self)@, tenant) == Some(sm@),
    {
        let ghost m0 = self@;
        let ghost smv = sm@;
        let ghost ents0 = self.entries@;
        let n = self.entries.len();
        let mut i: usize = 0;
        while i < n
            invariant
                i <= n,
                n == self.entries@.len(),
                m0 == self@,
                m0 == old(self)@,
                old(self).wf(),
                ents0 == self.entries@,
                m0.len() == n,
                sm@ == smv,
                smv.wf(),
                forall|j: int| 0 <= j < i ==> (#[trigger] m0[j]).0 != tenant,
            decreases n - i,
        {
            proof {
                assert(m0[i as int] == (self.entries@[i as int].0, self.entries@[i as int].1@));
            }
            if self.entries[i].0 == tenant {
                self.entries.remove(i);
                let ghost entsr = self.entries@;
                let entry = (tenant, sm);
                let ghost ev = entry;
                self.entries.insert(i, entry);
                proof {
                    assert(self.entries@ == entsr.insert(i as int, ev));
                    assert(ev.1@ == smv);
                    assert(self@.len() == m0.len());
                    assert forall|k: int| 0 <= k < m0.len() implies self@[k] == m0.update(
                        i as int,
                        (tenant, smv),
                    )[k] by {
                        assert(self@[k] == (self.entries@[k].0, self.entries@[k].1@));
                        if k < i {
                            assert(self.entries@[k] == entsr[k]);
                            assert(entsr[k] == ents0[k]);
                            assert(m0[k] == (ents0[k].0, ents0[k].1@));
                        } else if k == i {
                            assert(self.entries@[k] == ev);
                        } else {
                            assert(self.entries@[k] == entsr[k - 1]);
                            assert(entsr[k - 1] == ents0[k]);
                            assert(m0[k] == (ents0[k].0, ents0[k].1@));
                        }
                    }
                    assert(self@ =~= m0.update(i as int, (tenant, smv)));
                    lemma_tenant_put_found(m0, tenant, smv, i as int);
                    lemma_tenant_get_at(self@, tenant, i as int);
                    assert(m0[i as int].0 == tenant);
                    assert forall|a: int, b: int| 0 <= a < b < self@.len() implies (
                    #[trigger] self@[a]).0 != (#[trigger] self@[b]).0 by {
                        assert(m0[a].0 != m0[b].0);
                    }
                    assert forall|a: int| 0 <= a < self@.len() implies (
                    #[trigger] self@[a]).1.wf() by {
                        assert(m0[a].1.wf());
                    }
                }
                return ;
            }
            i = i + 1;
        }
        let entry = (tenant, sm);
        let ghost ev = entry;
        self.entries.push(entry);
        proof {
            assert(self.entries@ == ents0.push(ev));
            assert(ev.1@ == smv);
            assert(self@.len() == m0.len() + 1);
            assert forall|k: int| 0 <= k < m0.len() + 1 implies self@[k] == m0.push(
                (tenant, smv),
            )[k] by {
                assert(self@[k] == (self.entries@[k].0, self.entries@[k].1@));
                if k < m0.len() {
                    assert(self.entries@[k] == ents0[k]);
                    assert(m0[k] == (ents0[k].0, ents0[k].1@));
                } else {
                    assert(self.entries@[k] == ev);
                }
            }
            assert(self@ =~= m0.push((tenant, smv)));
            lemma_tenant_put_new(m0, tenant, smv);
            lemma_tenant_get_at(self@, tenant, m0.len() as int);
        }
    }
}

/// `tenant_put` replaces the first entry whose tenant matches.
proof fn lemma_tenant_put_found(m: Seq<(u64, IndexV)>, t: u64, v: IndexV, idx: int)
    requires
        0 <= idx < m.len(),
        m[idx].0 == t,
        forall|j: int| 0 <= j < idx ==> m[j].0 != t,
    ensures
        tenant_put(m, t, v) == m.update(idx, (t, v)),
    decreases m.len(),
{
    if idx == 0 {
        assert(tenant_put(m, t, v) =~= m.update(0, (t, v)));
    } else {
        lemma_tenant_put_found(m.drop_first(), t, v, idx - 1);
        assert(tenant_put(m, t, v) =~= m.update(idx, (t, v)));
    }
}

/// `tenant_put` appends when no tenant matches.
proof fn lemma_tenant_put_new(m: Seq<(u64, IndexV)>, t: u64, v: IndexV)
    requires
        forall|j: int| 0 <= j < m.len() ==> m[j].0 != t,
    ensures
        tenant_put(m, t, v) == m.push((t, v)),
    decreases m.len(),
{
    if m.len() == 0 {
        assert(tenant_put(m, t, v) =~= m.push((t, v)));
    } else {
        lemma_tenant_put_new(m.drop_first(), t, v);
        assert(tenant_put(m, t, v) =~= m.push((t, v)));
    }
}

/// `tenant_get` finds the first entry with the tenant.
proof fn lemma_tenant_get_at(m: Seq<(u64, IndexV)>, t: u64, idx: int)
    requires
        0 <= idx < m.len(),
        m[idx].0 == t,
        forall|j: int| 0 <= j < idx ==> m[j].0 != t,
    ensures
        tenant_get(m, t) == Some(m[idx].1),
    decreases m.len(),
{
    if idx > 0 {
        lemma_tenant_get_at(m.drop_first(), t, idx - 1);
    }
}

/// The document entries of the remote cache, at the view.
pub open spec fn doc_views(v: Seq<(String, SpellCollection)>) -> Seq<(Seq<char>, CollectionV)> {
    v.map_values(|p: (String, SpellCollection)| (p.0@, p.1@))
}

/// The document stored under a key, if any.
pub open spec fn doc_get_spec(m: Seq<(Seq<char>, CollectionV)>, k: Seq<char>) -> Option<CollectionV>
    decreases m.len(),
{
    if m.len() == 0 {
        None
    } else if m[0].0 == k {
        Some(m[0].1)
    } else {
        doc_get_spec(m.drop_first(), k)
    }
}

/// The mathematical value of the remote cache.
#[verifier::ext_equal]
pub ghost struct RemoteCacheV {
    pub index: Option<Seq<(Seq<char>, Seq<char>)>>,
    pub lookup: Option<Json>,
    pub docs: Seq<(Seq<char>, CollectionV)>,
    pub baseline: Option<CollectionV>,
}

/// The process-wide remote-catalog cache: the compendium's file index,
/// its class-source lookup, per-key fetched documents, and the baseline
/// catalog. Every cell is written at most once per key and never
/// invalidated in-process; a restart is needed to pick up upstream
/// changes.
#[derive(Debug)]
pub struct RemoteCache {
    index: Option<Vec<(String, String)>>,
    lookup: Option<Json>,
    docs: Vec<(String, SpellCollection)>,
    baseline: Option<SpellCollection>,
}

impl View for RemoteCache {
    type V = RemoteCacheV;

    closed spec fn view(&self) -> RemoteCacheV {
        RemoteCacheV {
            index: match self.index {
                Some(v) => Some(pairs_views(v@)),
                None => None,
            },
            lookup: match self.lookup {
                Some(j) => Some(j),
                None => None,
            },
            docs: doc_views(self.docs@),
            baseline: match self.baseline {
                Some(c) => Some(c@),
                None => None,
            },
        }
    }
}

impl RemoteCache {
    /// Document keys are recorded once.
    pub open spec fn wf(&self) -> bool {
        forall|i: int, j: int|
            0 <= i < j < self@.docs.len() ==> (#[trigger] self@.docs[i]).0 != (
            #[trigger] self@.docs[j]).0
    }

    /// An empty cache: nothing fetched yet.
    pub fn new() -> (r: RemoteCache)
        ensures
            r@.index is None,
            r@.lookup is None,
            r@.docs =~= Seq::<(Seq<char>, CollectionV)>::empty(),
            r@.baseline is None,
            r.wf(),
    {
        let r = RemoteCache { index: None, lookup: None, docs: Vec::new(), baseline: None };
        proof {
            assert(r@.docs =~= Seq::<(Seq<char>, CollectionV)>::empty());
        }
        r
    }

    /// The file index, once fetched.
    pub fn index_ref(&self) -> (r: Option<&Vec<(String, String)>>)
        ensures
            match r {
                Some(v) => self@.index == Some(pairs_views(v@)),
                None => self@.index is None,
            },
    {
        match &self.index {
            Some(v) => Some(v),
            None => None,
        }
    }

    /// Records the file index; it is fetched at most once.
    pub fn set_index(&mut self, v: Vec<(String, String)>)
        requires
            old(self)@.index is None,
            old(self).wf(),
        ensures
            final(self)@.index == Some(pairs_views(v@)),
            final(self)@.lookup == old(self)@.lookup,
            final(self)@.docs == old(self)@.docs,
            final(self)@.baseline == old(self)@.baseline,
            final(self).wf(),
    {
        self.index = Some(v);
    }

    /// The class-source lookup document, once fetched.
    pub fn lookup_ref(&self) -> (r: Option<&Json>)
        ensures
            match r {
                Some(j) => self@.lookup == Some(*j),
                None => self@.lookup is None,
            },
    {
        match &self.lookup {
            Some(j) => Some(j),
            None => None,
        }
    }

    /// Records the class-source lookup; it is fetched at most once.
    pub fn set_lookup(&mut self, j: Json)
        requires
            old(self)@.lookup is None,
            old(self).wf(),
        ensures
            final(self)@.index == old(self)@.index,
            final(self)@.lookup == Some(j),
            final(self)@.docs == old(self)@.docs,
            final(self)@.baseline == old(self)@.baseline,
            final(self).wf(),
    {
        self.lookup = Some(j);
    }

    /// The document cached under a key, if any.
    pub fn doc_get(&self, key: &str) -> (r: Option<&SpellCollection>)
        ensures
            match r {
                Some(c) => doc_get_spec(self@.docs, key@) == Some(c@),
                None => doc_get_spec(self@.docs, key@) is None,
            },
    {
        let n = self.docs.len();
        let mut i: usize = 0;
        proof {
            assert(self@.docs.skip(0) =~= self@.docs);
        }
        while i < n
            invariant
                i <= n,
                n == self.docs@.len(),
                self@.docs.len() == n,
                doc_get_spec(self@.docs, key@) == doc_get_spec(self@.docs.skip(i as int), key@),
            decreases n - i,
        {
            proof {
                assert(self@.docs.skip(i as int)[0] == self@.docs[i as int]);
                assert(self@.docs[i as int] == (self.docs@[i as int].0@, self.docs@[i as int].1@));
            }
            if str_eq(self.docs[i].0.as_str(), key) {
                return Some(&self.docs[i].1);
            }
            proof {
                assert(self@.docs.skip(i as int).drop_first() =~= self@.docs.skip(i + 1));
            }
            i = i + 1;
        }
        proof {
            assert(self@.docs.skip(n as int).len() == 0);
        }
        None
    }

    /// Caches a document under a key not yet present: each key is
    /// written at most once.
    pub fn doc_insert(&mut self, key: String, doc: SpellCollection)
        requires
            old(self).wf(),
            doc_get_spec(old(self)@.docs, key@) is None,
        ensures
            final(self)@.index == old(self)@.index,
            final(self)@.lookup == old(self)@.lookup,
            final(self)@.docs == old(self)@.docs.push((key@, doc@)),
            final(self)@.baseline == old(self)@.baseline,
            final(self).wf(),
    {
        let ghost d0 = self@.docs;
        let ghost kv = key@;
        let ghost dv = doc@;
        proof {
            lemma_doc_absent(d0, kv);
        }
        self.docs.push((key, doc));
        proof {
            assert(self@.docs =~= d0.push((kv, dv)));
        }
    }

    /// The baseline catalog, once fetched.
    pub fn baseline_ref(&self) -> (r: Option<&SpellCollection>)
        ensures
            match r {
                Some(c) => self@.baseline == Some(c@),
                None => self@.baseline is None,
            },
    {
        match &self.baseline {
            Some(c) => Some(c),
            None => None,
        }
    }

    /// Records the baseline catalog; it is fetched at most once.
    pub fn set_baseline(&mut self, c: SpellCollection)
        requires
            old(self)@.baseline is None,
            old(self).wf(),
        ensures
            final(self)@.index == old(self)@.index,
            final(self)@.lookup == old(self)@.lookup,
            final(self)@.docs == old(self)@.docs,
            final(self)@.baseline == Some(c@),
            final(self).wf(),
    {
        self.baseline = Some(c);
    }
}

/// A key that `doc_get_spec` misses matches no entry.
proof fn lemma_doc_absent(m: Seq<(Seq<char>, CollectionV)>, k: Seq<char>)
    requires
        doc_get_spec(m, k) is None,
    ensures
        forall|j: int| 0 <= j < m.len() ==> (#[trigger] m[j]).0 != k,
    decreases m.len(),
{
    if m.len() > 0 {
        lemma_doc_absent(m.drop_first(), k);
        assert forall|j: int| 0 <= j < m.len() implies (#[trigger] m[j]).0 != k by {
            if j > 0 {
                assert(m.drop_first()[j - 1] == m[j]);
            }
        }
    }
}

} // verus!
