//! The kernel registry: kernel name to pipeline id. New GPU kernels are
//! registered by name instead of being struct fields, so the Vulkan backend
//! grows without touching the runtime.
//!
//! Entries are kept sorted by the byte order of their names (the order of
//! `str`), which makes every name occur once and lets `names` hand them out
//! sorted.
use vstd::prelude::*;
use vstd::utf8::encode_utf8;

verus! {

/// Lexicographic order of byte strings (a proper prefix comes first), which
/// is how `str` and `String` compare.
pub open spec fn lex_lt(a: Seq<u8>, b: Seq<u8>) -> bool
    decreases a.len(),
{
    if a.len() == 0 {
        b.len() > 0
    } else if b.len() == 0 {
        false
    } else if a[0] != b[0] {
        a[0] < b[0]
    } else {
        lex_lt(a.drop_first(), b.drop_first())
    }
}

pub proof fn lemma_lex_irreflexive(a: Seq<u8>)
    ensures
        !lex_lt(a, a),
    decreases a.len(),
{
    if a.len() > 0 {
        lemma_lex_irreflexive(a.drop_first());
    }
}

pub proof fn lemma_lex_total(a: Seq<u8>, b: Seq<u8>)
    ensures
        a == b || lex_lt(a, b) || lex_lt(b, a),
    decreases a.len(),
{
    if a.len() > 0 && b.len() > 0 && a[0] == b[0] {
        lemma_lex_total(a.drop_first(), b.drop_first());
        if a.drop_first() == b.drop_first() {
            assert(a =~= seq![a[0]] + a.drop_first());
            assert(b =~= seq![b[0]] + b.drop_first());
        }
    } else if a.len() == 0 && b.len() == 0 {
        assert(a =~= b);
    }
}

pub proof fn lemma_lex_asymmetric(a: Seq<u8>, b: Seq<u8>)
    ensures
        lex_lt(a, b) ==> !lex_lt(b, a),
    decreases a.len(),
{
    if a.len() > 0 && b.len() > 0 && a[0] == b[0] {
        lemma_lex_asymmetric(a.drop_first(), b.drop_first());
    }
}

pub proof fn lemma_lex_transitive(a: Seq<u8>, b: Seq<u8>, c: Seq<u8>)
    requires
        lex_lt(a, b),
        lex_lt(b, c),
    ensures
        lex_lt(a, c),
    decreases a.len(),
{
    if a.len() > 0 && b.len() > 0 && c.len() > 0 && a[0] == b[0] && b[0] == c[0] {
        lemma_lex_transitive(a.drop_first(), b.drop_first(), c.drop_first());
    }
}

/// Byte-wise lexicographic `a < b`.
fn bytes_lt(a: &[u8], b: &[u8]) -> (res: bool)
    ensures
        res == lex_lt(a@, b@),
{
    let mut i: usize = 0;
    assert(a@.subrange(0, a@.len() as int) =~= a@);
    assert(b@.subrange(0, b@.len() as int) =~= b@);
    while i < a.len() && i < b.len() && a[i] == b[i]
        invariant
            0 <= i <= a@.len(),
            i <= b@.len(),
            a@.subrange(0, i as int) == b@.subrange(0, i as int),
            lex_lt(a@, b@) == lex_lt(
                a@.subrange(i as int, a@.len() as int),
                b@.subrange(i as int, b@.len() as int),
            ),
        decreases a@.len() - i,
    {
        proof {
            let sa = a@.subrange(i as int, a@.len() as int);
            let sb = b@.subrange(i as int, b@.len() as int);
            assert(sa.drop_first() =~= a@.subrange(i + 1, a@.len() as int));
            assert(sb.drop_first() =~= b@.subrange(i + 1, b@.len() as int));
            assert(a@.subrange(0, i + 1) =~= b@.subrange(0, i + 1));
        }
        i = i + 1;
    }
    if i == a.len() {
        i < b.len()
    } else if i == b.len() {
        false
    } else {
        a[i] < b[i]
    }
}

/// The UTF-8 bytes of an entry's name.
pub open spec fn name_bytes(e: (String, i32)) -> Seq<u8> {
    encode_utf8(e.0@)
}

/// Names strictly increasing in byte order.
pub open spec fn sorted_names(es: Seq<(String, i32)>) -> bool {
    forall|i: int, j: int|
        0 <= i < j < es.len() ==> lex_lt(#[trigger] name_bytes(es[i]), #[trigger] name_bytes(es[j]))
}

/// Names (as text) strictly increasing in byte order.
pub open spec fn sorted_strings(ns: Seq<Seq<char>>) -> bool {
    forall|i: int, j: int|
        0 <= i < j < ns.len() ==> lex_lt(encode_utf8(#[trigger] ns[i]), encode_utf8(#[trigger] ns[j]))
}

/// The entry index holding `k`, if any.
pub open spec fn has_name(es: Seq<(String, i32)>, k: Seq<char>) -> bool {
    exists|i: int| 0 <= i < es.len() && (#[trigger] es[i]).0@ == k
}

/// An index of an entry named `k` (meaningful when there is one).
pub open spec fn entry_index(es: Seq<(String, i32)>, k: Seq<char>) -> int {
    choose|i: int| 0 <= i < es.len() && (#[trigger] es[i]).0@ == k
}

pub open spec fn entries_map(es: Seq<(String, i32)>) -> Map<Seq<char>, i32> {
    Map::new(|k: Seq<char>| has_name(es, k), |k: Seq<char>| es[entry_index(es, k)].1)
}

/// Maps kernel names to pipeline ids.
pub struct KernelRegistry {
    entries: Vec<(String, i32)>,
}

impl KernelRegistry {
    #[verifier::type_invariant]
    spec fn wf(self) -> bool {
        sorted_names(self.entries@)
    }
}

impl View for KernelRegistry {
    type V = Map<Seq<char>, i32>;

    closed spec fn view(&self) -> Map<Seq<char>, i32> {
        entries_map(self.entries@)
    }
}

/// In a sorted entry list, index `i` is the only one with its name.
proof fn lemma_unique(es: Seq<(String, i32)>, i: int, j: int)
    requires
        sorted_names(es),
        0 <= i < es.len(),
        0 <= j < es.len(),
        es[i].0@ == es[j].0@,
    ensures
        i == j,
{
    if i < j {
        assert(lex_lt(name_bytes(es[i]), name_bytes(es[j])));
        lemma_lex_irreflexive(name_bytes(es[i]));
    } else if j < i {
        assert(lex_lt(name_bytes(es[j]), name_bytes(es[i])));
        lemma_lex_irreflexive(name_bytes(es[i]));
    }
}

/// The map value of the name at index `i` is that entry's id.
proof fn lemma_value_at(es: Seq<(String, i32)>, idx: int)
    requires
        sorted_names(es),
        0 <= idx < es.len(),
    ensures
        entries_map(es).contains_key(es[idx].0@),
        entries_map(es)[es[idx].0@] == es[idx].1,
{
    let k = es[idx].0@;
    assert(has_name(es, k));
    let c = entry_index(es, k);
    lemma_unique(es, idx, c);
}

impl Default for KernelRegistry {
    fn default() -> (res: Self)
        ensures
            res@ == Map::<Seq<char>, i32>::empty(),
    {
        let r = KernelRegistry { entries: Vec::new() };
        assert(r@ =~= Map::<Seq<char>, i32>::empty());
        r
    }
}

impl KernelRegistry {
    /// Register `name` (replacing an earlier registration of it).
    pub fn insert(&mut self, name: &str, pipe: i32)
        ensures
            final(self)@ == old(self)@.insert(name@, pipe),
    {
        proof {
            use_type_invariant(&*self);
        }
        let key = name.as_bytes();
        let ghost kb = key@;
        let ghost old_es = self.entries@;
        // Find the first entry whose name is not below `name`.
        let mut p: usize = 0;
        while p < self.entries.len()
            invariant
                self.entries@ == old_es,
                sorted_names(old_es),
                kb == encode_utf8(name@),
                key@ == kb,
                0 <= p <= old_es.len(),
                forall|i: int| 0 <= i < p ==> lex_lt(#[trigger] name_bytes(old_es[i]), kb),
            ensures
                0 <= p <= old_es.len(),
                forall|i: int| 0 <= i < p ==> lex_lt(#[trigger] name_bytes(old_es[i]), kb),
                p < old_es.len() ==> !lex_lt(name_bytes(old_es[p as int]), kb),
            decreases old_es.len() - p,
        {
            let below = bytes_lt(self.entries[p].0.as_str().as_bytes(), key);
            if !below {
                break;
            }
            p = p + 1;
        }
        proof {
            // Everything from p on is at or above `name`.
            assert forall|i: int| p <= i < old_es.len() implies !lex_lt(
                #[trigger] name_bytes(old_es[i]),
                kb,
            ) by {
                if i == p {
                } else {
                    assert(lex_lt(name_bytes(old_es[p as int]), name_bytes(old_es[i])));
                    lemma_lex_total(name_bytes(old_es[p as int]), kb);
                    if lex_lt(name_bytes(old_es[i]), kb) {
                        if name_bytes(old_es[p as int]) == kb {
                            lemma_lex_asymmetric(kb, name_bytes(old_es[i]));
                        } else if lex_lt(kb, name_bytes(old_es[p as int])) {
                            lemma_lex_transitive(kb, name_bytes(old_es[p as int]), name_bytes(old_es[i]));
                            lemma_lex_asymmetric(kb, name_bytes(old_es[i]));
                        }
                    }
                }
            }
        }
        let owned = name.to_owned();
        let mut es: Vec<(String, i32)> = Vec::new();
        std::mem::swap(&mut es, &mut self.entries);
        if p < es.len() && crate::text::str_eq(es[p].0.as_str(), name) {
            let ghost new_es = old_es.update(p as int, (owned, pipe));
            proof {
                assert(name_bytes((owned, pipe)) == name_bytes(old_es[p as int]));
                assert(sorted_names(new_es)) by {
                    assert forall|i: int, j: int| 0 <= i < j < new_es.len() implies lex_lt(
                        #[trigger] name_bytes(new_es[i]),
                        #[trigger] name_bytes(new_es[j]),
                    ) by {
                        assert(lex_lt(name_bytes(old_es[i]), name_bytes(old_es[j])));
                    }
                }
                lemma_map_update(old_es, p as int, (owned, pipe));
            }
            es.set(p, (owned, pipe));
        } else {
            let ghost new_es = old_es.insert(p as int, (owned, pipe));
            proof {
                // `name` is strictly between its neighbours.
                assert forall|i: int| p <= i < old_es.len() implies lex_lt(
                    kb,
                    #[trigger] name_bytes(old_es[i]),
                ) by {
                    lemma_lex_total(kb, name_bytes(old_es[i]));
                    if kb == name_bytes(old_es[i]) {
                        crate::text::lemma_encode_utf8_injective(name@, old_es[i].0@);
                        if i > p {
                            assert(lex_lt(name_bytes(old_es[p as int]), name_bytes(old_es[i])));
                            lemma_lex_total(name_bytes(old_es[p as int]), kb);
                            if name_bytes(old_es[p as int]) == kb {
                                lemma_lex_irreflexive(kb);
                            } else if lex_lt(kb, name_bytes(old_es[p as int])) {
                                lemma_lex_asymmetric(kb, name_bytes(old_es[p as int]));
                            }
                        }
                    }
                }
                assert(name_bytes((owned, pipe)) == kb);
                assert(sorted_names(new_es)) by {
                    assert forall|i: int, j: int| 0 <= i < j < new_es.len() implies lex_lt(
                        #[trigger] name_bytes(new_es[i]),
                        #[trigger] name_bytes(new_es[j]),
                    ) by {
                        if j < p {
                            assert(lex_lt(name_bytes(old_es[i]), name_bytes(old_es[j])));
                        } else if j == p {
                        } else if i < p {
                            assert(new_es[j] == old_es[j - 1]);
                            lemma_lex_transitive(name_bytes(old_es[i]), kb, name_bytes(old_es[j - 1]));
                        } else if i == p {
                            assert(new_es[j] == old_es[j - 1]);
                        } else {
                            assert(lex_lt(name_bytes(old_es[i - 1]), name_bytes(old_es[j - 1])));
                        }
                    }
                }
                assert(!has_name(old_es, name@)) by {
                    if has_name(old_es, name@) {
                        let c = choose|c: int| 0 <= c < old_es.len() && (#[trigger] old_es[c]).0@ == name@;
                        if c < p {
                            assert(lex_lt(name_bytes(old_es[c]), kb));
                            lemma_lex_irreflexive(kb);
                        } else {
                            assert(lex_lt(kb, name_bytes(old_es[c])));
                            lemma_lex_irreflexive(kb);
                        }
                    }
                }
                lemma_map_insert(old_es, p as int, (owned, pipe));
            }
            es.insert(p, (owned, pipe));
        }
        self.entries = es;
    }

    /// The pipeline id registered for `name`, if any.
    pub fn get(&self, name: &str) -> (res: Option<i32>)
        ensures
            res == (if self@.contains_key(name@) {
                Some(self@[name@])
            } else {
                None
            }),
    {
        proof {
            use_type_invariant(&*self);
        }
        let mut i: usize = 0;
        while i < self.entries.len()
            invariant
                sorted_names(self.entries@),
                0 <= i <= self.entries@.len(),
                forall|k: int| 0 <= k < i ==> (#[trigger] self.entries@[k]).0@ != name@,
            decreases self.entries@.len() - i,
        {
            if crate::text::str_eq(self.entries[i].0.as_str(), name) {
                proof {
                    lemma_value_at(self.entries@, i as int);
                }
                return Some(self.entries[i].1);
            }
            i = i + 1;
        }
        None
    }

    /// All registered names, sorted.
    pub fn names(&self) -> (res: Vec<String>)
        ensures
            sorted_strings(res@.map_values(|s: String| s@)),
            res@.map_values(|s: String| s@).to_set() == self@.dom(),
    {
        proof {
            use_type_invariant(&*self);
        }
        let mut v: Vec<String> = Vec::new();
        let mut i: usize = 0;
        while i < self.entries.len()
            invariant
                sorted_names(self.entries@),
                0 <= i <= self.entries@.len(),
                v@.len() == i,
                forall|k: int| 0 <= k < i ==> (#[trigger] v@[k]) == self.entries@[k].0,
            decreases self.entries@.len() - i,
        {
            v.push(self.entries[i].0.clone());
            i = i + 1;
        }
        proof {
            let vs = v@.map_values(|s: String| s@);
            let es = self.entries@;
            assert forall|a: int, b: int| 0 <= a < b < vs.len() implies lex_lt(
                encode_utf8(#[trigger] vs[a]),
                encode_utf8(#[trigger] vs[b]),
            ) by {
                assert(lex_lt(name_bytes(es[a]), name_bytes(es[b])));
            }
            assert forall|k: Seq<char>| #[trigger] vs.to_set().contains(k) == self@.dom().contains(
                k,
            ) by {
                if vs.to_set().contains(k) {
                    let a = choose|a: int| 0 <= a < vs.len() && vs[a] == k;
                    assert(es[a].0@ == k);
                    assert(has_name(es, k));
                }
                if self@.dom().contains(k) {
                    let a = choose|a: int| 0 <= a < es.len() && (#[trigger] es[a]).0@ == k;
                    assert(vs[a] == k);
                    assert(vs.contains(k));
                }
            }
            assert(vs.to_set() =~= self@.dom());
        }
        v
    }
}

/// Replacing the entry at `p` by one with the same name updates that name.
proof fn lemma_map_update(es: Seq<(String, i32)>, p: int, e: (String, i32))
    requires
        sorted_names(es),
        0 <= p < es.len(),
        es[p].0@ == e.0@,
        sorted_names(es.update(p, e)),
    ensures
        entries_map(es.update(p, e)) == entries_map(es).insert(e.0@, e.1),
{
    let ns = es.update(p, e);
    assert forall|k: Seq<char>| #[trigger] has_name(ns, k) == (has_name(es, k) || k == e.0@) by {
        if has_name(ns, k) {
            let c = choose|c: int| 0 <= c < ns.len() && (#[trigger] ns[c]).0@ == k;
            if c != p {
                assert(es[c].0@ == k);
            }
        }
        if has_name(es, k) {
            let c = choose|c: int| 0 <= c < es.len() && (#[trigger] es[c]).0@ == k;
            if c != p {
                assert(ns[c].0@ == k);
            } else {
                assert(ns[p].0@ == k);
            }
        }
        if k == e.0@ {
            assert(ns[p].0@ == k);
        }
    }
    assert forall|k: Seq<char>| #[trigger] entries_map(ns).contains_key(k) implies entries_map(
        ns,
    )[k] == entries_map(es).insert(e.0@, e.1)[k] by {
        let c = choose|c: int| 0 <= c < ns.len() && (#[trigger] ns[c]).0@ == k;
        lemma_value_at(ns, c);
        if c != p {
            assert(es[c] == ns[c]);
            lemma_value_at(es, c);
            if k == e.0@ {
                lemma_unique(es, c, p);
            }
        }
    }
    assert(entries_map(ns) =~= entries_map(es).insert(e.0@, e.1));
}

proof fn lemma_insert_value(es: Seq<(String, i32)>, p: int, e: (String, i32), k: Seq<char>)
    requires
        sorted_names(es),
        0 <= p <= es.len(),
        !has_name(es, e.0@),
        sorted_names(es.insert(p, e)),
        has_name(es.insert(p, e), k),
    ensures
        entries_map(es.insert(p, e))[k] == entries_map(es).insert(e.0@, e.1)[k],
{
    let ns = es.insert(p, e);
    let c = choose|c: int| 0 <= c < ns.len() && (#[trigger] ns[c]).0@ == k;
    lemma_value_at(ns, c);
    if c < p {
        assert(es[c] == ns[c]);
        lemma_value_at(es, c);
    } else if c > p {
        assert(es[c - 1] == ns[c]);
        lemma_value_at(es, c - 1);
    }
}

/// Inserting an entry with a new name at `p` adds that name.
proof fn lemma_map_insert(es: Seq<(String, i32)>, p: int, e: (String, i32))
    requires
        sorted_names(es),
        0 <= p <= es.len(),
        !has_name(es, e.0@),
        sorted_names(es.insert(p, e)),
    ensures
        entries_map(es.insert(p, e)) == entries_map(es).insert(e.0@, e.1),
{
    let ns = es.insert(p, e);
    assert forall|k: Seq<char>| #[trigger] has_name(ns, k) == (has_name(es, k) || k == e.0@) by {
        if has_name(ns, k) {
            let c = choose|c: int| 0 <= c < ns.len() && (#[trigger] ns[c]).0@ == k;
            if c < p {
                assert(es[c].0@ == k);
            } else if c > p {
                assert(es[c - 1].0@ == k);
            }
        }
        if has_name(es, k) {
            let c = choose|c: int| 0 <= c < es.len() && (#[trigger] es[c]).0@ == k;
            if c < p {
                assert(ns[c].0@ == k);
            } else {
                assert(ns[c + 1].0@ == k);
            }
        }
        if k == e.0@ {
            assert(ns[p].0@ == k);
        }
    }
    assert forall|k: Seq<char>| #[trigger] entries_map(ns).contains_key(k) implies entries_map(
        ns,
    )[k] == entries_map(es).insert(e.0@, e.1)[k] by {
        lemma_insert_value(es, p, e, k);
    }
    assert(entries_map(ns) =~= entries_map(es).insert(e.0@, e.1));
}

/// A registration is what a later lookup of the same name returns; every
/// other name looks up as it did before, and the registered names are the
/// earlier ones plus this one.
pub proof fn lemma_insert_then_get(
    before: Map<Seq<char>, i32>,
    name: Seq<char>,
    pipe: i32,
    other: Seq<char>,
)
    ensures
        before.insert(name, pipe).contains_key(name),
        before.insert(name, pipe)[name] == pipe,
        other != name ==> before.insert(name, pipe).contains_key(other) == before.contains_key(
            other,
        ),
        other != name && before.contains_key(other) ==> before.insert(name, pipe)[other]
            == before[other],
        before.insert(name, pipe).dom() == before.dom().insert(name),
{
}

} // verus!
