//! The trust decision for loading `.rtw` containers and formula DLLs.
//!
//! A path is trusted, in this order, when
//!   1. the whitelist (if one was loaded and is non-empty) lists it, or
//!   2. it was already trusted earlier in this process (remembered), or
//!   3. the user answers "yes" to a prompt, after which it is remembered.
//!
//! The prompt itself is I/O and lives with the caller; this module holds the
//! state and the decisions around it.
use crate::error::RtorchError;
use crate::text::paths_equal;
use crate::text::{ascii_eq_ignore_case, plain_path};
use crate::whitelist::{spec_allowed_by, spec_strip_verbatim, PathStyle, Whitelist};
use vstd::prelude::*;
use vstd::utf8::encode_utf8;

verus! {

#[derive(Debug)]
pub struct TrustGate {
    whitelist: Option<Whitelist>,
    remembered: Vec<String>,
}

impl TrustGate {
    /// The paths trusted so far in this process, in the order they were trusted.
    pub closed spec fn remembered_list(&self) -> Seq<Seq<char>> {
        self.remembered@.map_values(|s: String| s@)
    }

    /// The paths trusted so far in this process.
    pub closed spec fn remembered(&self) -> Set<Seq<char>> {
        self.remembered@.map_values(|s: String| s@).to_set()
    }

    /// The remembered set is the set of the remembered list.
    pub proof fn lemma_remembered_list(&self)
        ensures
            self.remembered() == self.remembered_list().to_set(),
            self.remembered().finite(),
            self.remembered().len() == 0 <==> self.remembered_list().len() == 0,
    {
        let rs = self.remembered_list();
        vstd::seq_lib::seq_to_set_is_finite(rs);
        if rs.len() > 0 {
            assert(rs.to_set().contains(rs[0]));
            vstd::set::axiom_set_contains_len(rs.to_set(), rs[0]);
        } else {
            assert(rs.to_set() =~= Set::<Seq<char>>::empty());
        }
    }

    /// Whether `normalized` passes the whitelist, given `same[i]`: the
    /// platform's path comparison of whitelist entry `i` with `normalized`.
    pub open spec fn whitelisted_by(&self, normalized: Seq<char>, style: PathStyle, same: Seq<
        bool,
    >) -> bool {
        match self.listed() {
            Some(ls) => spec_allowed_by(ls, normalized, style, same),
            None => false,
        }
    }

    /// Every remembered path is spelled plainly (see `plain_path`).
    pub open spec fn remembered_plain(&self) -> bool {
        forall|j: int|
            0 <= j < self.remembered_list().len() ==> plain_path(#[trigger] self.remembered_list()[j])
    }

    /// Every whitelist entry (when a non-empty whitelist was loaded) is
    /// spelled plainly.
    pub open spec fn listed_plain(&self) -> bool {
        match self.listed() {
            Some(ls) => forall|i: int| 0 <= i < ls.len() ==> plain_path(#[trigger] ls[i]),
            None => true,
        }
    }

    /// The loaded, non-empty whitelist lists `x` as it is spelled.
    pub open spec fn lists(&self, x: Seq<char>) -> bool {
        match self.listed() {
            Some(ls) => ls.contains(x),
            None => false,
        }
    }

    /// Whether some remembered path, by `same[j]` (the platform's path
    /// comparison of remembered path `j` with the one asked about), is it.
    pub open spec fn remembered_by_spec(&self, same: Seq<bool>) -> bool {
        exists|j: int| 0 <= j < self.remembered_list().len() && j < same.len() && #[trigger] same[j]
    }

    /// The whitelist's entries, when one was loaded and it is non-empty.
    pub closed spec fn listed(&self) -> Option<Seq<Seq<char>>> {
        match self.whitelist {
            Some(w) => if w@.len() > 0 {
                Some(w@)
            } else {
                None
            },
            None => None,
        }
    }

    /// Start the trust decisions from the outcome of loading the whitelist that
    /// `RTORCH_WHITELIST` names: a load error leaves them without a
    /// whitelist (prompting still applies), never with a permissive one.
    pub fn from_env(loaded: Result<Whitelist, RtorchError>) -> (res: TrustGate)
        ensures
            res.remembered() == Set::<Seq<char>>::empty(),
            match loaded {
                Ok(w) => res.listed() == (if w@.len() > 0 {
                    Some(w@)
                } else {
                    None
                }),
                Err(_) => res.listed() is None,
            },
    {
        let g = TrustGate { whitelist: loaded.ok(), remembered: Vec::new() };
        assert(g.remembered@.map_values(|s: String| s@).to_set() =~= Set::<Seq<char>>::empty());
        g
    }

    /// For each remembered path, whether the platform's path comparison finds
    /// it equal to `path` (an identical one always does).
    fn remembered_matches(&self, path: &str) -> (res: Vec<bool>)
        ensures
            res@.len() == self.remembered_list().len(),
            forall|j: int|
                0 <= j < self.remembered_list().len() && self.remembered_list()[j] == path@
                    ==> #[trigger] res@[j],
            forall|j: int|
                0 <= j < self.remembered_list().len() && plain_path(self.remembered_list()[j])
                    && plain_path(path@) ==> (#[trigger] res@[j] <==> self.remembered_list()[j]
                    == path@),
    {
        let ghost rs = self.remembered_list();
        let mut out: Vec<bool> = Vec::new();
        let mut i: usize = 0;
        while i < self.remembered.len()
            invariant
                rs == self.remembered_list(),
                rs.len() == self.remembered@.len(),
                0 <= i <= self.remembered@.len(),
                out@.len() == i,
                forall|k: int| 0 <= k < i && rs[k] == path@ ==> #[trigger] out@[k],
                forall|k: int|
                    0 <= k < i && plain_path(rs[k]) && plain_path(path@) ==> (#[trigger] out@[k]
                        <==> rs[k] == path@),
            decreases self.remembered@.len() - i,
        {
            assert(rs[i as int] == self.remembered@[i as int]@);
            out.push(paths_equal(self.remembered[i].as_str(), path));
            i = i + 1;
        }
        out
    }

    /// Whether the path asked about was already trusted, given `same[j]`: the
    /// platform's path comparison of remembered path `j` with it. Nothing
    /// counts as remembered that no comparison matched.
    pub fn remembered_by(&self, same: &[bool]) -> (res: bool)
        ensures
            res == self.remembered_by_spec(same@),
    {
        let ghost rs = self.remembered_list();
        let mut i: usize = 0;
        while i < self.remembered.len()
            invariant
                rs == self.remembered_list(),
                rs.len() == self.remembered@.len(),
                0 <= i <= self.remembered@.len(),
                forall|k: int| 0 <= k < i && k < same@.len() ==> !(#[trigger] same@[k]),
            decreases self.remembered@.len() - i,
        {
            if i < same.len() && same[i] {
                return true;
            }
            i = i + 1;
        }
        false
    }

    /// Whether `path` was already trusted in this process (compared with the
    /// platform's path rules; see `remembered_by`).
    pub fn is_remembered(&self, path: &str) -> (res: bool)
        ensures
            self.remembered().contains(path@) ==> res,
            self.remembered().len() == 0 ==> !res,
            (plain_path(path@) && self.remembered_plain()) ==> (res <==> self.remembered().contains(
                path@,
            )),
    {
        proof {
            self.lemma_remembered_list();
        }
        let same = self.remembered_matches(path);
        proof {
            if self.remembered().contains(path@) {
                let rs = self.remembered_list();
                let k = choose|k: int| 0 <= k < rs.len() && rs[k] == path@;
                assert(same@[k]);
            }
            if plain_path(path@) && self.remembered_plain() {
                let rs = self.remembered_list();
                if exists|j: int| 0 <= j < rs.len() && j < same@.len() && same@[j] {
                    let j = choose|j: int| 0 <= j < rs.len() && j < same@.len() && same@[j];
                    assert(plain_path(rs[j]));
                    assert(rs.contains(path@));
                }
            }
        }
        self.remembered_by(same.as_slice())
    }

    /// Trust `path` for the rest of the process.
    pub fn remember(&mut self, path: &str)
        ensures
            final(self).remembered() == old(self).remembered().insert(path@),
            final(self).listed() == old(self).listed(),
    {
        let ghost before = self.remembered@.map_values(|s: String| s@);
        self.remembered.push(path.to_owned());
        proof {
            let after = self.remembered@.map_values(|s: String| s@);
            assert(after =~= before.push(path@));
            assert(after.to_set() =~= before.to_set().insert(path@)) by {
                assert forall|k: Seq<char>| after.to_set().contains(k) == before.to_set().insert(
                    path@,
                ).contains(k) by {
                    if after.contains(k) {
                        let j = choose|j: int| 0 <= j < after.len() && after[j] == k;
                        if j < before.len() {
                            assert(before[j] == k);
                        }
                    }
                    if before.contains(k) {
                        let j = choose|j: int| 0 <= j < before.len() && before[j] == k;
                        assert(after[j] == k);
                    }
                    if k == path@ {
                        assert(after[before.len() as int] == k);
                    }
                }
            }
        }
    }

    /// Steps 1 and 2, given the platform's path comparisons: whether the path
    /// may be loaded without asking. It may exactly when the whitelist (loaded
    /// and non-empty) lists `normalized` (`listed_same[i]` compares entry `i`
    /// with it) or a remembered path is it (`remembered_same[j]` compares
    /// remembered path `j` with it); a path neither listed nor remembered is
    /// not trusted.
    pub fn trusted_by(
        &self,
        normalized: &str,
        style: PathStyle,
        listed_same: &[bool],
        remembered_same: &[bool],
    ) -> (res: bool)
        ensures
            res == (self.whitelisted_by(normalized@, style, listed_same@)
                || self.remembered_by_spec(remembered_same@)),
    {
        let listed = match &self.whitelist {
            Some(wl) => !wl.is_empty() && wl.allowed_by(normalized, style, listed_same),
            None => false,
        };
        if listed {
            return true;
        }
        self.remembered_by(remembered_same)
    }

    /// Steps 1 and 2: whether `path` may be loaded without asking. `normalized`
    /// is the absolute form of `path` that the whitelist is matched against,
    /// with the platform's path rules; the comparisons are made here and
    /// decided by `trusted_by`.
    pub fn trusted_without_prompt(&self, path: &str, normalized: &str, style: PathStyle) -> (res:
        bool)
        ensures
            self.remembered().contains(path@) ==> res,
            (self.listed() matches Some(ls) && style == PathStyle::Windows && exists|i: int|
                0 <= i < ls.len() && ascii_eq_ignore_case(
                    encode_utf8(spec_strip_verbatim(#[trigger] ls[i])),
                    encode_utf8(normalized@),
                )) ==> res,
            (self.listed() matches Some(ls) && style == PathStyle::Posix && ls.contains(
                normalized@,
            )) ==> res,
            (self.listed() is None && self.remembered().len() == 0) ==> !res,
            (style == PathStyle::Windows && self.remembered().len() == 0 && !self.whitelisted_by(
                normalized@,
                style,
                Seq::<bool>::empty(),
            )) ==> !res,
            (style == PathStyle::Posix && plain_path(normalized@) && plain_path(path@)
                && self.listed_plain() && self.remembered_plain()) ==> (res <==> (self.lists(
                normalized@,
            ) || self.remembered().contains(path@))),
    {
        proof {
            self.lemma_remembered_list();
        }
        let listed_same: Vec<bool> = match &self.whitelist {
            Some(wl) => match style {
                PathStyle::Posix => wl.path_matches(normalized),
                PathStyle::Windows => Vec::new(),
            },
            None => Vec::new(),
        };
        let remembered_same = self.remembered_matches(path);
        proof {
            if style == PathStyle::Posix {
                if let Some(ls) = self.listed() {
                    if ls.contains(normalized@) {
                        let k = choose|k: int| 0 <= k < ls.len() && ls[k] == normalized@;
                        assert(listed_same@[k]);
                    }
                }
            }
            if self.remembered().contains(path@) {
                let rs = self.remembered_list();
                let k = choose|k: int| 0 <= k < rs.len() && rs[k] == path@;
                assert(remembered_same@[k]);
            }
            if style == PathStyle::Posix && plain_path(normalized@) && plain_path(path@)
                && self.listed_plain() && self.remembered_plain() {
                let rs = self.remembered_list();
                if exists|j: int|
                    0 <= j < rs.len() && j < remembered_same@.len() && remembered_same@[j] {
                    let j = choose|j: int|
                        0 <= j < rs.len() && j < remembered_same@.len() && remembered_same@[j];
                    assert(plain_path(rs[j]));
                    assert(rs.contains(path@));
                }
                if let Some(ls) = self.listed() {
                    if exists|i: int| 0 <= i < ls.len() && i < listed_same@.len() && listed_same@[i] {
                        let i = choose|i: int|
                            0 <= i < ls.len() && i < listed_same@.len() && listed_same@[i];
                        assert(plain_path(ls[i]));
                        assert(ls.contains(normalized@));
                    }
                }
            }
        }
        self.trusted_by(normalized, style, listed_same.as_slice(), remembered_same.as_slice())
    }

    /// Step 3, after the prompt: a "yes" trusts and remembers the path, a "no"
    /// rejects it, and a failed prompt is passed on as the error it was.
    pub fn record_answer(&mut self, path: &str, answer: Result<bool, String>) -> (res: Result<
        bool,
        String,
    >)
        ensures
            res == answer,
            answer == Ok::<bool, String>(true) ==> final(self).remembered() == old(
                self,
            ).remembered().insert(path@),
            answer != Ok::<bool, String>(true) ==> final(self).remembered() == old(
                self,
            ).remembered(),
            final(self).listed() == old(self).listed(),
    {
        match answer {
            Ok(true) => {
                self.remember(path);
                Ok(true)
            },
            Ok(false) => Ok(false),
            Err(e) => Err(e),
        }
    }
}

/// Once the user trusts a path (`record_answer` with a "yes", or
/// `remember`), it stays remembered, so `trusted_without_prompt` passes it
/// from then on: a path is prompted at most once per process. Nothing
/// trusted before is forgotten, and the whitelist is left as it was.
pub proof fn lemma_trusted_once(before: TrustGate, after: TrustGate, path: Seq<char>)
    requires
        after.remembered() == before.remembered().insert(path),
        after.listed() == before.listed(),
    ensures
        after.remembered().contains(path),
        forall|p: Seq<char>| before.remembered().contains(p) ==> after.remembered().contains(p),
        after.remembered().len() > 0,
        after.listed() == before.listed(),
{
    vstd::seq_lib::seq_to_set_is_finite(after.remembered@.map_values(|s: String| s@));
    vstd::set::axiom_set_contains_len(after.remembered(), path);
}

} // verus!
