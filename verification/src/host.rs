//! Hostcall registry: declared imports for native bridges, found by name or by tag.
use vstd::prelude::*;
use std::collections::BTreeMap;
use crate::bytes::{push_u32, u32_bytes};
use crate::text::str_eq;

verus! {

broadcast use vstd::std_specs::btree::group_btree_axioms;

#[derive(Clone, Debug)]
pub struct HostFn {
    pub name: String,
    pub arity: u8,
    pub tag: u32,
}

/// Mathematical content of a host function entry.
pub struct HostFnModel {
    pub name: Seq<char>,
    pub arity: u8,
    pub tag: u32,
}

impl View for HostFn {
    type V = HostFnModel;

    open spec fn view(&self) -> HostFnModel {
        HostFnModel { name: self.name@, arity: self.arity, tag: self.tag }
    }
}

/// Entries by name (names are distinct) and names by tag.
#[derive(Clone, Debug)]
pub struct HostTable {
    by_name: Vec<HostFn>,
    by_tag: BTreeMap<u32, String>,
}

/// Mathematical content of a table: entries keyed by name, names keyed by tag.
pub struct HostTableModel {
    pub names: Map<Seq<char>, HostFnModel>,
    pub tags: Map<u32, Seq<char>>,
}

/// The entries keyed by name; a later entry replaces an earlier one of the same name.
pub open spec fn names_map(v: Seq<HostFn>) -> Map<Seq<char>, HostFnModel>
    decreases v.len(),
{
    if v.len() == 0 {
        Map::empty()
    } else {
        names_map(v.drop_last()).insert(v.last().name@, v.last()@)
    }
}

/// No two entries share a name.
pub open spec fn distinct_names(v: Seq<HostFn>) -> bool {
    forall|i: int, j: int| 0 <= i < j < v.len() ==> (#[trigger] v[i]).name@ != (#[trigger] v[j]).name@
}

impl View for HostTable {
    type V = HostTableModel;

    closed spec fn view(&self) -> HostTableModel {
        HostTableModel {
            names: names_map(self.by_name@),
            tags: self.by_tag@.map_values(|s: String| s@),
        }
    }
}

proof fn lemma_names_map(v: Seq<HostFn>)
    requires
        distinct_names(v),
    ensures
        forall|k: Seq<char>| #[trigger] names_map(v).contains_key(k) <==> exists|i: int| 0 <= i < v.len()
            && (#[trigger] v[i]).name@ == k,
        forall|i: int| 0 <= i < v.len() ==> names_map(v)[(#[trigger] v[i]).name@] == v[i]@,
        names_map(v).dom().finite(),
        names_map(v).len() == v.len(),
    decreases v.len(),
{
    if v.len() > 0 {
        let p = v.drop_last();
        assert(distinct_names(p)) by {
            assert forall|i: int, j: int| 0 <= i < j < p.len() implies (#[trigger] p[i]).name@ != (#[trigger] p[j]).name@ by {
                assert(p[i] == v[i] && p[j] == v[j]);
            }
        }
        lemma_names_map(p);
        let last = v.last();
        assert(!names_map(p).contains_key(last.name@)) by {
            if names_map(p).contains_key(last.name@) {
                let i = choose|i: int| 0 <= i < p.len() && (#[trigger] p[i]).name@ == last.name@;
                assert(v[i] == p[i]);
                assert(v[v.len() - 1] == last);
            }
        }
        assert forall|k: Seq<char>| #[trigger] names_map(v).contains_key(k) <==> exists|i: int| 0 <= i < v.len()
            && (#[trigger] v[i]).name@ == k by {
            if names_map(v).contains_key(k) && k != last.name@ {
                let i = choose|i: int| 0 <= i < p.len() && (#[trigger] p[i]).name@ == k;
                assert(v[i] == p[i]);
            }
            if exists|i: int| 0 <= i < v.len() && (#[trigger] v[i]).name@ == k {
                let i = choose|i: int| 0 <= i < v.len() && (#[trigger] v[i]).name@ == k;
                if i < v.len() - 1 {
                    assert(p[i] == v[i]);
                }
            }
        }
        assert forall|i: int| 0 <= i < v.len() implies names_map(v)[(#[trigger] v[i]).name@] == v[i]@ by {
            if i < v.len() - 1 {
                assert(p[i] == v[i]);
                assert(v[i].name@ != last.name@);
            }
        }
    }
}

/// Position of the entry named `name`.
fn find_name(v: &Vec<HostFn>, name: &str) -> (r: Option<usize>)
    ensures
        r matches Some(i) ==> i < v@.len() && v@[i as int].name@ == name@,
        r is None ==> forall|j: int| 0 <= j < v@.len() ==> (#[trigger] v@[j]).name@ != name@,
{
    let mut i: usize = 0;
    while i < v.len()
        invariant
            i <= v@.len(),
            forall|j: int| 0 <= j < i ==> (#[trigger] v@[j]).name@ != name@,
        decreases v@.len() - i,
    {
        if str_eq(v[i].name.as_str(), name) {
            return Some(i);
        }
        i += 1;
    }
    None
}

impl Default for HostTable {
    fn default() -> (r: Self)
        ensures
            r@.names == Map::<Seq<char>, HostFnModel>::empty(),
            r@.tags == Map::<u32, Seq<char>>::empty(),
            r.wf(),
    {
        let r = HostTable { by_name: Vec::new(), by_tag: BTreeMap::new() };
        assert(r@.tags =~= Map::<u32, Seq<char>>::empty());
        r
    }
}

impl HostTable {
    /// The internal invariant: entry names are distinct.
    pub closed spec fn wf(&self) -> bool {
        distinct_names(self.by_name@)
    }

    /// Declares `name` with its arity under `tag`; an earlier entry of the same name, and
    /// an earlier name under the same tag, are replaced.
    pub fn register(&mut self, name: &str, arity: u8, tag: u32)
        requires
            old(self).wf(),
        ensures
            final(self).wf(),
            final(self)@.names == old(self)@.names.insert(name@, HostFnModel { name: name@, arity, tag }),
            final(self)@.tags == old(self)@.tags.insert(tag, name@),
    {
        let ghost old_v = self.by_name@;
        proof {
            lemma_names_map(old_v);
        }
        let mut tag_name = String::new();
        tag_name.append(name);
        self.by_tag.insert(tag, tag_name);
        let mut entry_name = String::new();
        entry_name.append(name);
        let entry = HostFn { name: entry_name, arity, tag };
        let found = find_name(&self.by_name, name);
        if let Some(i) = found {
            self.by_name.set(i, entry);
            proof {
                let v = self.by_name@;
                assert(old_v[i as int].name@ == name@);
                assert(distinct_names(v)) by {
                    assert forall|a: int, b: int| 0 <= a < b < v.len() implies (#[trigger] v[a]).name@
                        != (#[trigger] v[b]).name@ by {
                        if a != i && b != i {
                            assert(v[a] == old_v[a] && v[b] == old_v[b]);
                        } else if a == i {
                            assert(v[b] == old_v[b]);
                        } else {
                            assert(v[a] == old_v[a]);
                        }
                    }
                }
                lemma_names_map(v);
                assert(names_map(v) =~= names_map(old_v).insert(name@, HostFnModel { name: name@, arity, tag }))
                    by {
                    assert forall|k: Seq<char>| #[trigger] names_map(v).contains_key(k) == names_map(old_v).insert(
                        name@,
                        HostFnModel { name: name@, arity, tag },
                    ).contains_key(k) by {
                        if k == name@ {
                            assert(v[i as int] == entry);
                            assert(v[i as int].name@ == k);
                        }
                        if exists|j: int| 0 <= j < old_v.len() && (#[trigger] old_v[j]).name@ == k {
                            let j = choose|j: int| 0 <= j < old_v.len() && (#[trigger] old_v[j]).name@ == k;
                            if j != i {
                                assert(v[j] == old_v[j]);
                            }
                        }
                        if exists|j: int| 0 <= j < v.len() && (#[trigger] v[j]).name@ == k {
                            let j = choose|j: int| 0 <= j < v.len() && (#[trigger] v[j]).name@ == k;
                            if j != i {
                                assert(v[j] == old_v[j]);
                            }
                        }
                    }
                    assert forall|k: Seq<char>| #[trigger] names_map(v).contains_key(k) implies names_map(v)[k]
                        == names_map(old_v).insert(name@, HostFnModel { name: name@, arity, tag })[k] by {
                        let j = choose|j: int| 0 <= j < v.len() && (#[trigger] v[j]).name@ == k;
                        if j != i {
                            assert(v[j] == old_v[j]);
                        }
                    }
                }
            }
        } else {
            self.by_name.push(entry);
            proof {
                let v = self.by_name@;
                assert(v.drop_last() =~= old_v);
                assert(distinct_names(v)) by {
                    assert forall|a: int, b: int| 0 <= a < b < v.len() implies (#[trigger] v[a]).name@
                        != (#[trigger] v[b]).name@ by {
                        assert(v[a] == old_v[a]);
                        if b < old_v.len() {
                            assert(v[b] == old_v[b]);
                        }
                    }
                }
            }
        }
        assert(self@.tags =~= old(self)@.tags.insert(tag, name@));
    }

    /// The entry declared under `name`.
    pub fn lookup(&self, name: &str) -> (r: Option<&HostFn>)
        requires
            self.wf(),
        ensures
            r is None <==> !self@.names.contains_key(name@),
            r matches Some(e) ==> e@ == self@.names[name@],
    {
        proof {
            lemma_names_map(self.by_name@);
        }
        match find_name(&self.by_name, name) {
            Some(i) => Some(&self.by_name[i]),
            None => None,
        }
    }

    /// The name declared under `tag`.
    pub fn lookup_tag(&self, tag: u32) -> (r: Option<&str>)
        ensures
            r is None <==> !self@.tags.contains_key(tag),
            r matches Some(s) ==> s@ == self@.tags[tag],
    {
        match self.by_tag.get(&tag) {
            Some(s) => Some(s.as_str()),
            None => None,
        }
    }

    /// Number of names declared.
    pub fn len(&self) -> (r: usize)
        requires
            self.wf(),
        ensures
            r == self@.names.len(),
    {
        proof {
            lemma_names_map(self.by_name@);
        }
        self.by_name.len()
    }
}

/// The standard host functions: print, clock, len, assert, hash, read and write.
pub open spec fn standard_names() -> Map<Seq<char>, HostFnModel> {
    Map::empty().insert("print"@, HostFnModel { name: "print"@, arity: 1, tag: 1 }).insert(
        "clock"@,
        HostFnModel { name: "clock"@, arity: 0, tag: 2 },
    ).insert("len"@, HostFnModel { name: "len"@, arity: 1, tag: 3 }).insert(
        "assert"@,
        HostFnModel { name: "assert"@, arity: 1, tag: 4 },
    ).insert("hash"@, HostFnModel { name: "hash"@, arity: 1, tag: 5 }).insert(
        "read"@,
        HostFnModel { name: "read"@, arity: 2, tag: 6 },
    ).insert("write"@, HostFnModel { name: "write"@, arity: 2, tag: 7 })
}

/// The tags of the standard host functions.
pub open spec fn standard_tags() -> Map<u32, Seq<char>> {
    Map::empty().insert(1u32, "print"@).insert(2u32, "clock"@).insert(3u32, "len"@).insert(4u32, "assert"@).insert(
        5u32,
        "hash"@,
    ).insert(6u32, "read"@).insert(7u32, "write"@)
}

/// A table with the standard host functions.
pub fn standard_hosts() -> (r: HostTable)
    ensures
        r.wf(),
        r@.names == standard_names(),
        r@.tags == standard_tags(),
{
    let mut t = HostTable::default();
    t.register("print", 1, 1);
    t.register("clock", 0, 2);
    t.register("len", 1, 3);
    t.register("assert", 1, 4);
    t.register("hash", 1, 5);
    t.register("read", 2, 6);
    t.register("write", 2, 7);
    t
}

/// The stub of a host call: the tag in little-endian order, the arity, three zero bytes.
pub fn encode_host_stub(tag: u32, arity: u8) -> (r: Vec<u8>)
    ensures
        r@ == u32_bytes(tag) + seq![arity, 0u8, 0u8, 0u8],
{
    let mut v: Vec<u8> = Vec::new();
    push_u32(&mut v, tag);
    v.push(arity);
    v.push(0);
    v.push(0);
    v.push(0);
    assert(v@ =~= u32_bytes(tag) + seq![arity, 0u8, 0u8, 0u8]);
    v
}

} // verus!
