//! The cache of uploaded kernel parameter buffers: an op's parameters are
//! uploaded once per distinct `(op tag, bytes)` and the device buffer is
//! reused whenever the same pair comes again.
use crate::text::{bytes_eq, str_eq};
use vstd::prelude::*;

verus! {

/// What an entry is looked up by: the op tag and the parameter bytes.
pub open spec fn key_of(e: (String, Vec<u8>, i32)) -> (Seq<char>, Seq<u8>) {
    (e.0@, e.1@)
}

/// No key occurs twice.
pub open spec fn distinct_keys(es: Seq<(String, Vec<u8>, i32)>) -> bool {
    forall|i: int, j: int| 0 <= i < j < es.len() ==> key_of(#[trigger] es[i]) != key_of(#[trigger] es[j])
}

pub open spec fn has_key(es: Seq<(String, Vec<u8>, i32)>, k: (Seq<char>, Seq<u8>)) -> bool {
    exists|i: int| 0 <= i < es.len() && key_of(#[trigger] es[i]) == k
}

pub open spec fn key_index(es: Seq<(String, Vec<u8>, i32)>, k: (Seq<char>, Seq<u8>)) -> int {
    choose|i: int| 0 <= i < es.len() && key_of(#[trigger] es[i]) == k
}

pub open spec fn cache_map(es: Seq<(String, Vec<u8>, i32)>) -> Map<(Seq<char>, Seq<u8>), i32> {
    Map::new(|k: (Seq<char>, Seq<u8>)| has_key(es, k), |k: (Seq<char>, Seq<u8>)| es[key_index(es, k)].2)
}

/// Maps `(op tag, parameter bytes)` to the device buffer holding them.
pub struct ParamsCache {
    entries: Vec<(String, Vec<u8>, i32)>,
}

impl ParamsCache {
    #[verifier::type_invariant]
    spec fn wf(self) -> bool {
        distinct_keys(self.entries@)
    }
}

impl View for ParamsCache {
    type V = Map<(Seq<char>, Seq<u8>), i32>;

    closed spec fn view(&self) -> Map<(Seq<char>, Seq<u8>), i32> {
        cache_map(self.entries@)
    }
}

/// In a list without repeated keys, the entry at `i` is the one its key maps to.
proof fn lemma_entry_value(es: Seq<(String, Vec<u8>, i32)>, i: int)
    requires
        distinct_keys(es),
        0 <= i < es.len(),
    ensures
        cache_map(es).contains_key(key_of(es[i])),
        cache_map(es)[key_of(es[i])] == es[i].2,
{
    let k = key_of(es[i]);
    assert(has_key(es, k));
    let c = key_index(es, k);
    if c < i {
        assert(key_of(es[c]) != key_of(es[i]));
    } else if i < c {
        assert(key_of(es[i]) != key_of(es[c]));
    }
}

impl ParamsCache {
    /// The empty cache.
    pub fn new() -> (res: Self)
        ensures
            res@ == Map::<(Seq<char>, Seq<u8>), i32>::empty(),
    {
        let r = ParamsCache { entries: Vec::new() };
        assert(r@ =~= Map::<(Seq<char>, Seq<u8>), i32>::empty());
        r
    }

    /// Where the entry for `(tag, bytes)` sits, if there is one.
    fn position(&self, tag: &str, bytes: &[u8]) -> (res: Option<usize>)
        ensures
            match res {
                Some(i) => i < self.entries@.len() && key_of(self.entries@[i as int]) == (
                    tag@,
                    bytes@,
                ),
                None => !has_key(self.entries@, (tag@, bytes@)),
            },
    {
        let mut i: usize = 0;
        while i < self.entries.len()
            invariant
                0 <= i <= self.entries@.len(),
                forall|k: int| 0 <= k < i ==> key_of(#[trigger] self.entries@[k]) != (tag@, bytes@),
            decreases self.entries@.len() - i,
        {
            let e = &self.entries[i];
            if str_eq(e.0.as_str(), tag) && bytes_eq(e.1.as_slice(), bytes) {
                return Some(i);
            }
            i = i + 1;
        }
        None
    }

    /// The buffer cached for `(tag, bytes)`, if any.
    pub fn lookup(&self, tag: &str, bytes: &[u8]) -> (res: Option<i32>)
        ensures
            res == (if self@.contains_key((tag@, bytes@)) {
                Some(self@[(tag@, bytes@)])
            } else {
                None
            }),
    {
        proof {
            use_type_invariant(self);
        }
        match self.position(tag, bytes) {
            Some(i) => {
                proof {
                    lemma_entry_value(self.entries@, i as int);
                }
                Some(self.entries[i].2)
            },
            None => None,
        }
    }

    /// Cache `id` as the buffer for `(tag, bytes)` (replacing an earlier one).
    pub fn insert(&mut self, tag: &str, bytes: &[u8], id: i32)
        ensures
            final(self)@ == old(self)@.insert((tag@, bytes@), id),
    {
        proof {
            use_type_invariant(&*self);
        }
        let ghost old_es = self.entries@;
        let at = self.position(tag, bytes);
        let entry = (tag.to_owned(), vstd::slice::slice_to_vec(bytes), id);
        assert(key_of(entry) == (tag@, bytes@));
        let mut es: Vec<(String, Vec<u8>, i32)> = Vec::new();
        std::mem::swap(&mut es, &mut self.entries);
        match at {
            Some(i) => {
                es.set(i, entry);
                proof {
                    let new_es = es@;
                    assert(new_es == old_es.update(i as int, entry));
                    assert(distinct_keys(new_es)) by {
                        assert forall|a: int, b: int| 0 <= a < b < new_es.len() implies key_of(
                            #[trigger] new_es[a],
                        ) != key_of(#[trigger] new_es[b]) by {
                            if a == i {
                                assert(key_of(old_es[a]) != key_of(old_es[b]));
                            } else if b == i {
                                assert(key_of(old_es[a]) != key_of(old_es[b]));
                            } else {
                                assert(key_of(old_es[a]) != key_of(old_es[b]));
                            }
                        }
                    }
                    assert forall|k: (Seq<char>, Seq<u8>)| #[trigger] has_key(new_es, k) == (
                        has_key(old_es, k) || k == (tag@, bytes@)) by {
                        if has_key(new_es, k) {
                            let c = choose|c: int|
                                0 <= c < new_es.len() && key_of(#[trigger] new_es[c]) == k;
                            if c != i {
                                assert(key_of(old_es[c]) == k);
                            }
                        }
                        if has_key(old_es, k) {
                            let c = choose|c: int|
                                0 <= c < old_es.len() && key_of(#[trigger] old_es[c]) == k;
                            if c == i {
                                assert(key_of(new_es[c]) == k);
                            } else {
                                assert(key_of(new_es[c]) == k);
                            }
                        }
                        if k == (tag@, bytes@) {
                            assert(key_of(new_es[i as int]) == k);
                        }
                    }
                    assert(cache_map(new_es) =~= cache_map(old_es).insert((tag@, bytes@), id)) by {
                        assert forall|k: (Seq<char>, Seq<u8>)| has_key(new_es, k) implies cache_map(
                            new_es,
                        )[k] == cache_map(old_es).insert((tag@, bytes@), id)[k] by {
                            let c = key_index(new_es, k);
                            assert(key_of(new_es[c]) == k);
                            lemma_entry_value(new_es, c);
                            if k != (tag@, bytes@) {
                                assert(key_of(old_es[c]) == k);
                                lemma_entry_value(old_es, c);
                            }
                        }
                    }
                }
            },
            None => {
                es.push(entry);
                proof {
                    let new_es = es@;
                    assert(new_es == old_es.push(entry));
                    assert(distinct_keys(new_es)) by {
                        assert forall|a: int, b: int| 0 <= a < b < new_es.len() implies key_of(
                            #[trigger] new_es[a],
                        ) != key_of(#[trigger] new_es[b]) by {
                            if b == old_es.len() {
                                assert(new_es[a] == old_es[a]);
                                if key_of(old_es[a]) == (tag@, bytes@) {
                                    assert(has_key(old_es, (tag@, bytes@)));
                                }
                            } else {
                                assert(key_of(old_es[a]) != key_of(old_es[b]));
                            }
                        }
                    }
                    assert forall|k: (Seq<char>, Seq<u8>)| #[trigger] has_key(new_es, k) == (
                        has_key(old_es, k) || k == (tag@, bytes@)) by {
                        if has_key(new_es, k) {
                            let c = choose|c: int|
                                0 <= c < new_es.len() && key_of(#[trigger] new_es[c]) == k;
                            if c < old_es.len() {
                                assert(key_of(old_es[c]) == k);
                            }
                        }
                        if has_key(old_es, k) {
                            let c = choose|c: int|
                                0 <= c < old_es.len() && key_of(#[trigger] old_es[c]) == k;
                            assert(key_of(new_es[c]) == k);
                        }
                        if k == (tag@, bytes@) {
                            assert(key_of(new_es[old_es.len() as int]) == k);
                        }
                    }
                    assert(cache_map(new_es) =~= cache_map(old_es).insert((tag@, bytes@), id)) by {
                        assert forall|k: (Seq<char>, Seq<u8>)| has_key(new_es, k) implies cache_map(
                            new_es,
                        )[k] == cache_map(old_es).insert((tag@, bytes@), id)[k] by {
                            let c = key_index(new_es, k);
                            assert(key_of(new_es[c]) == k);
                            lemma_entry_value(new_es, c);
                            if k != (tag@, bytes@) {
                                assert(c < old_es.len());
                                assert(key_of(old_es[c]) == k);
                                lemma_entry_value(old_es, c);
                            }
                        }
                    }
                }
            },
        }
        self.entries = es;
    }
}

/// Parameters cached once are found again: a lookup of the same tag and
/// bytes after an insert gives its buffer, and any other pair looks up as it
/// did before.
pub proof fn lemma_lookup_after_insert(
    before: Map<(Seq<char>, Seq<u8>), i32>,
    tag: Seq<char>,
    bytes: Seq<u8>,
    id: i32,
    other: (Seq<char>, Seq<u8>),
)
    ensures
        before.insert((tag, bytes), id).contains_key((tag, bytes)),
        before.insert((tag, bytes), id)[(tag, bytes)] == id,
        other != (tag, bytes) ==> before.insert((tag, bytes), id).contains_key(other)
            == before.contains_key(other),
        other != (tag, bytes) && before.contains_key(other) ==> before.insert((tag, bytes), id)[other]
            == before[other],
{
}

} // verus!
