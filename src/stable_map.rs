//! The persistent byte maps that generated code reaches by a small integer
//! identifier.  Keys and values are byte strings already in wire format.
use vstd::prelude::*;

verus! {

#[verifier::external_type_specification]
#[verifier::external_body]
pub struct ExCandidError(candid::Error);

/// The memory identifier that candid's decoder, held to a work quota of
/// `10_000` for decoding and for skipping, reads from `bytes` as one `nat8`
/// argument, or `None` where it rejects them.
pub uninterp spec fn candid_nat8_of(bytes: Seq<u8>) -> Option<u8>;

/// Relies on `candid::decode_one_with_config::<u8>`: it decodes a message
/// holding one `nat8` argument, stops with an error once the quotas are
/// spent (so a message that declares a huge extra argument is refused
/// instead of skipped for ever), and its answer depends on the bytes alone.
#[verifier::external_body]
fn decode_memory_id(bytes: &Vec<u8>) -> (r: Result<u8, candid::Error>)
    ensures
        match r {
            Ok(id) => candid_nat8_of(bytes@) == Some(id),
            Err(_) => candid_nat8_of(bytes@) is None,
        },
{
    let mut config = candid::DecoderConfig::new();
    config.set_decoding_quota(10_000);
    config.set_skipping_quota(10_000);
    candid::decode_one_with_config::<u8>(bytes, &config)
}

fn bytes_eq(a: &Vec<u8>, b: &Vec<u8>) -> (r: bool)
    ensures
        r == (a@ == b@),
{
    if a.len() != b.len() {
        return false;
    }
    let mut i: usize = 0;
    while i < a.len()
        invariant
            i <= a.len(),
            a.len() == b.len(),
            forall|j: int| 0 <= j < i ==> a@[j] == b@[j],
        decreases a.len() - i,
    {
        if a[i] != b[i] {
            return false;
        }
        i = i + 1;
    }
    assert(a@ =~= b@);
    true
}

#[derive(Debug)]
pub struct StableEntry {
    pub map_id: u8,
    pub key: Vec<u8>,
    pub value: Vec<u8>,
}

#[derive(Debug, PartialEq, Eq, Structural)]
pub enum StableMapError {
    /// The memory identifier is not a candid `nat8` message.
    InvalidMemoryId,
    /// No map was declared under this identifier.
    UnknownMap(u8),
}

/// The declared maps and their entries.
pub struct StableMaps {
    ids: Vec<u8>,
    entries: Vec<StableEntry>,
}

impl StableMaps {
    /// Each map holds a key at most once.
    pub closed spec fn wf(&self) -> bool {
        forall|i: int, j: int|
            0 <= i < j < self.entries@.len() ==> !(self.entries@[i].map_id
                == self.entries@[j].map_id && self.entries@[i].key@ == self.entries@[j].key@)
    }

    pub closed spec fn has_map(&self, id: u8) -> bool {
        self.ids@.contains(id)
    }

    /// The value stored under `key` in map `id`.
    pub closed spec fn lookup(&self, id: u8, key: Seq<u8>) -> Option<Seq<u8>> {
        if exists|i: int|
            0 <= i < self.entries@.len() && self.entries@[i].map_id == id && self.entries@[i].key@
                == key {
            let i = choose|i: int|
                0 <= i < self.entries@.len() && self.entries@[i].map_id == id
                    && self.entries@[i].key@ == key;
            Some(self.entries@[i].value@)
        } else {
            None
        }
    }

    /// What a read of `key` in map `id` answers: an error for an undeclared
    /// map, else the stored bytes or `None`.
    pub open spec fn get_result(&self, id: u8, key: Seq<u8>, r: Result<Option<Vec<u8>>, StableMapError>) -> bool {
        &&& !self.has_map(id) ==> r == Err::<Option<Vec<u8>>, StableMapError>(StableMapError::UnknownMap(id))
        &&& self.has_map(id) ==> (r matches Ok(v) && match v {
            Some(b) => self.lookup(id, key) == Some(b@),
            None => self.lookup(id, key) is None,
        })
    }

    /// Empty maps under the given identifiers.
    pub fn new(ids: Vec<u8>) -> (r: StableMaps)
        ensures
            r.wf(),
            forall|id: u8| r.has_map(id) <==> ids@.contains(id),
            forall|id: u8, key: Seq<u8>| r.lookup(id, key) is None,
    {
        StableMaps { ids, entries: Vec::new() }
    }

    fn find(&self, id: u8, key: &Vec<u8>) -> (r: Option<usize>)
        requires
            self.wf(),
        ensures
            match r {
                Some(i) => i < self.entries@.len() && self.entries@[i as int].map_id == id
                    && self.entries@[i as int].key@ == key@ && self.lookup(id, key@) == Some(
                    self.entries@[i as int].value@,
                ),
                None => self.lookup(id, key@) is None,
            },
    {
        let mut i: usize = 0;
        while i < self.entries.len()
            invariant
                self.wf(),
                i <= self.entries@.len(),
                forall|j: int|
                    0 <= j < i ==> !(self.entries@[j].map_id == id && #[trigger] self.entries@[j].key@
                        == key@),
            decreases self.entries.len() - i,
        {
            if self.entries[i].map_id == id && bytes_eq(&self.entries[i].key, key) {
                proof {
                    let k = choose|k: int|
                        0 <= k < self.entries@.len() && self.entries@[k].map_id == id
                            && self.entries@[k].key@ == key@;
                    if k != i {
                        if k < i {
                            assert(self.entries@[k].key@ == key@);
                        }
                    }
                }
                return Some(i);
            }
            i = i + 1;
        }
        None
    }

    fn has_map_exec(&self, id: u8) -> (r: bool)
        ensures
            r == self.has_map(id),
    {
        let mut i: usize = 0;
        while i < self.ids.len()
            invariant
                i <= self.ids@.len(),
                forall|j: int| 0 <= j < i ==> self.ids@[j] != id,
            decreases self.ids.len() - i,
        {
            if self.ids[i] == id {
                return true;
            }
            i = i + 1;
        }
        false
    }

    /// The bytes stored under `key` in map `id`.
    pub fn get(&self, id: u8, key: &Vec<u8>) -> (r: Result<Option<Vec<u8>>, StableMapError>)
        requires
            self.wf(),
        ensures
            self.get_result(id, key@, r),
    {
        if !self.has_map_exec(id) {
            return Err(StableMapError::UnknownMap(id));
        }
        match self.find(id, key) {
            Some(i) => Ok(Some(self.entries[i].value.clone())),
            None => Ok(None),
        }
    }

    /// Stores `value` under `key` in map `id` and hands back what was stored
    /// there before.
    pub fn insert(&mut self, id: u8, key: Vec<u8>, value: Vec<u8>) -> (r: Result<
        Option<Vec<u8>>,
        StableMapError,
    >)
        requires
            old(self).wf(),
        ensures
            final(self).wf(),
            forall|m: u8| final(self).has_map(m) == old(self).has_map(m),
            !old(self).has_map(id) ==> r == Err::<Option<Vec<u8>>, StableMapError>(
                StableMapError::UnknownMap(id),
            ) && forall|m: u8, k: Seq<u8>| final(self).lookup(m, k) == old(self).lookup(m, k),
            old(self).has_map(id) ==> (r matches Ok(prev) && match prev {
                Some(b) => old(self).lookup(id, key@) == Some(b@),
                None => old(self).lookup(id, key@) is None,
            }) && forall|m: u8, k: Seq<u8>|
                #[trigger] final(self).lookup(m, k) == if m == id && k == key@ {
                    Some(value@)
                } else {
                    old(self).lookup(m, k)
                },
    {
        if !self.has_map_exec(id) {
            return Err(StableMapError::UnknownMap(id));
        }
        let ghost before = self.entries@;
        match self.find(id, &key) {
            Some(i) => {
                let prev = self.entries[i].value.clone();
                let ghost kv = key@;
                let ghost vv = value@;
                self.entries.set(i, StableEntry { map_id: id, key, value });
                proof {
                    assert forall|m: u8, k: Seq<u8>|
                        #[trigger] self.lookup(m, k) == if m == id && k == kv {
                            Some(vv)
                        } else {
                            old(self).lookup(m, k)
                        } by {
                        if m == id && k == kv {
                            assert(self.entries@[i as int].key@ == kv);
                        } else {
                            if exists|j: int| 0 <= j < self.entries@.len() && self.entries@[j].map_id == m && self.entries@[j].key@ == k {
                                let j = choose|j: int| 0 <= j < self.entries@.len() && self.entries@[j].map_id == m && self.entries@[j].key@ == k;
                                assert(before[j] == self.entries@[j]);
                            }
                            if exists|j: int| 0 <= j < before.len() && before[j].map_id == m && before[j].key@ == k {
                                let j = choose|j: int| 0 <= j < before.len() && before[j].map_id == m && before[j].key@ == k;
                                assert(before[j] == self.entries@[j]);
                            }
                        }
                    }
                }
                Ok(Some(prev))
            },
            None => {
                let ghost kv = key@;
                let ghost vv = value@;
                self.entries.push(StableEntry { map_id: id, key, value });
                proof {
                    let n = before.len() as int;
                    assert(self.entries@[n].key@ == kv);
                    assert forall|m: u8, k: Seq<u8>|
                        #[trigger] self.lookup(m, k) == if m == id && k == kv {
                            Some(vv)
                        } else {
                            old(self).lookup(m, k)
                        } by {
                        if m == id && k == kv {
                            let j = choose|j: int| 0 <= j < self.entries@.len() && self.entries@[j].map_id == m && self.entries@[j].key@ == k;
                            if j < n {
                                assert(before[j] == self.entries@[j]);
                            }
                        } else {
                            if exists|j: int| 0 <= j < self.entries@.len() && self.entries@[j].map_id == m && self.entries@[j].key@ == k {
                                let j = choose|j: int| 0 <= j < self.entries@.len() && self.entries@[j].map_id == m && self.entries@[j].key@ == k;
                                assert(before[j] == self.entries@[j]);
                            }
                            if exists|j: int| 0 <= j < before.len() && before[j].map_id == m && before[j].key@ == k {
                                let j = choose|j: int| 0 <= j < before.len() && before[j].map_id == m && before[j].key@ == k;
                                assert(before[j] == self.entries@[j]);
                            }
                        }
                    }
                    assert forall|a: int, b: int| 0 <= a < b < self.entries@.len() implies !(self.entries@[a].map_id
                        == self.entries@[b].map_id && self.entries@[a].key@ == self.entries@[b].key@) by {
                        if b == n {
                            assert(before[a] == self.entries@[a]);
                        } else {
                            assert(before[a] == self.entries@[a]);
                            assert(before[b] == self.entries@[b]);
                        }
                    }
                }
                Ok(None)
            },
        }
    }

    /// Stores `value` under `key` in the map whose identifier is given as a
    /// candid message, and hands back what was stored there before.
    pub fn stable_b_tree_map_insert(
        &mut self,
        memory_id_candid_bytes: &Vec<u8>,
        key: Vec<u8>,
        value: Vec<u8>,
    ) -> (r: Result<Option<Vec<u8>>, StableMapError>)
        requires
            old(self).wf(),
        ensures
            final(self).wf(),
            candid_nat8_of(memory_id_candid_bytes@) is None ==> r == Err::<Option<Vec<u8>>, StableMapError>(
                StableMapError::InvalidMemoryId,
            ) && forall|m: u8, k: Seq<u8>| final(self).lookup(m, k) == old(self).lookup(m, k),
            candid_nat8_of(memory_id_candid_bytes@) matches Some(id) ==> {
                &&& old(self).get_result(id, key@, r)
                &&& old(self).has_map(id) ==> forall|m: u8, k: Seq<u8>|
                    #[trigger] final(self).lookup(m, k) == if m == id && k == key@ {
                        Some(value@)
                    } else {
                        old(self).lookup(m, k)
                    }
                &&& !old(self).has_map(id) ==> forall|m: u8, k: Seq<u8>|
                    final(self).lookup(m, k) == old(self).lookup(m, k)
            },
    {
        match decode_memory_id(memory_id_candid_bytes) {
            Ok(id) => self.insert(id, key, value),
            Err(_) => Err(StableMapError::InvalidMemoryId),
        }
    }

    /// The map operation that generated code calls with the memory
    /// identifier as a candid message: decodes the identifier, then reads.
    pub fn stable_b_tree_map_get(&self, memory_id_candid_bytes: &Vec<u8>, key: &Vec<u8>) -> (r: Result<
        Option<Vec<u8>>,
        StableMapError,
    >)
        requires
            self.wf(),
        ensures
            candid_nat8_of(memory_id_candid_bytes@) is None ==> r == Err::<Option<Vec<u8>>, StableMapError>(
                StableMapError::InvalidMemoryId,
            ),
            candid_nat8_of(memory_id_candid_bytes@) matches Some(id) ==> self.get_result(id, key@, r),
    {
        match decode_memory_id(memory_id_candid_bytes) {
            Ok(id) => self.get(id, key),
            Err(_) => Err(StableMapError::InvalidMemoryId),
        }
    }
}

} // verus!
