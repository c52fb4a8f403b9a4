//! Asset resolution: the production build manifest with its stable version
//! fingerprint, and the development mode backed by a live dev server.

use vstd::prelude::*;
use vstd::string::*;
use crate::text::{
    lex_lt, str_lt, str_eq,
    lemma_lex_lt_irreflexive, lemma_lex_lt_connected, lemma_lex_lt_asymmetric,
    lemma_lex_lt_transitive,
};

verus! {

/// Mathematical model of one manifest entry: the hashed output file and the
/// ordered stylesheet dependencies.
pub ghost struct EntryModel {
    pub file: Seq<char>,
    pub css: Seq<Seq<char>>,
}

/// One build-manifest entry: a hashed output file name and the stylesheets
/// that must be loaded with it, in order.
#[derive(Debug, Clone)]
pub struct ManifestEntry {
    pub file: String,
    pub css: Vec<String>,
}

impl View for ManifestEntry {
    type V = EntryModel;

    open spec fn view(&self) -> EntryModel {
        EntryModel { file: self.file@, css: self.css.deep_view() }
    }
}

/// Configuration errors raised while the frontend tooling state is loaded.
#[derive(Debug, Clone)]
pub enum Error {
    HrmServerNotFound,
    BuildManifestNotFound,
    FailedToParseManifest(String),
}

impl Error {
    /// A human-readable description of the error.
    pub fn message(&self) -> (r: String)
        ensures
            match self {
                Error::HrmServerNotFound => r@
                    == "Could not find dev server information, make sure you are running `pnpm dev`"@,
                Error::BuildManifestNotFound => r@
                    == "Could not find build manifest, make sure you've run `pnpm build`"@,
                Error::FailedToParseManifest(d) => r@ == "Failed to parse manifest: "@ + d@,
            },
    {
        match self {
            Error::HrmServerNotFound => String::from_str(
                "Could not find dev server information, make sure you are running `pnpm dev`",
            ),
            Error::BuildManifestNotFound => String::from_str(
                "Could not find build manifest, make sure you've run `pnpm build`",
            ),
            Error::FailedToParseManifest(d) => {
                let mut s = String::from_str("Failed to parse manifest: ");
                s.append(d.as_str());
                s
            },
        }
    }
}

/// The mapping a sequence of key/entry pairs denotes, later pairs overriding
/// earlier ones with the same key.
pub open spec fn map_of_pairs(s: Seq<(Seq<char>, EntryModel)>) -> Map<Seq<char>, EntryModel>
    decreases s.len(),
{
    if s.len() == 0 {
        Map::empty()
    } else {
        map_of_pairs(s.drop_last()).insert(s.last().0, s.last().1)
    }
}

/// Keys strictly ascending in lexicographic order; implies keys are unique.
pub open spec fn keys_sorted(s: Seq<(Seq<char>, EntryModel)>) -> bool {
    forall|i: int, j: int| 0 <= i < j < s.len() ==> lex_lt(#[trigger] s[i].0, #[trigger] s[j].0)
}

proof fn lemma_map_of_pairs_contains(s: Seq<(Seq<char>, EntryModel)>, k: Seq<char>)
    ensures
        map_of_pairs(s).contains_key(k) <==> exists|j: int| 0 <= j < s.len() && s[j].0 == k,
    decreases s.len(),
{
    if s.len() > 0 {
        lemma_map_of_pairs_contains(s.drop_last(), k);
        if s.last().0 == k {
            assert(s[s.len() - 1].0 == k);
        } else {
            if map_of_pairs(s).contains_key(k) {
                let j = choose|j: int| 0 <= j < s.drop_last().len() && s.drop_last()[j].0 == k;
                assert(s[j].0 == k);
            }
            if exists|j: int| 0 <= j < s.len() && s[j].0 == k {
                let j = choose|j: int| 0 <= j < s.len() && s[j].0 == k;
                assert(j < s.len() - 1);
                assert(s.drop_last()[j].0 == k);
            }
        }
    }
}

proof fn lemma_map_of_pairs_value(s: Seq<(Seq<char>, EntryModel)>, j: int)
    requires
        0 <= j < s.len(),
        forall|l: int| j < l < s.len() ==> (#[trigger] s[l].0) != s[j].0,
    ensures
        map_of_pairs(s).contains_key(s[j].0),
        map_of_pairs(s)[s[j].0] == s[j].1,
    decreases s.len(),
{
    if j == s.len() - 1 {
    } else {
        assert(s.last().0 != s[j].0);
        assert(forall|l: int|
            j < l < s.drop_last().len() ==> (#[trigger] s.drop_last()[l].0) != s.drop_last()[j].0);
        lemma_map_of_pairs_value(s.drop_last(), j);
    }
}

proof fn lemma_map_of_pairs_insert_mid(
    s: Seq<(Seq<char>, EntryModel)>,
    i: int,
    p: (Seq<char>, EntryModel),
)
    requires
        0 <= i <= s.len(),
        forall|l: int| i <= l < s.len() ==> (#[trigger] s[l].0) != p.0,
    ensures
        map_of_pairs(s.insert(i, p)) == map_of_pairs(s).insert(p.0, p.1),
    decreases s.len() - i,
{
    if i == s.len() {
        assert(s.insert(i, p) =~= s.push(p));
        assert(s.push(p).drop_last() =~= s);
        assert(s.push(p).last() == p);
    } else {
        let t = s.insert(i, p);
        assert(t.len() == s.len() + 1);
        assert(t.last() == s.last());
        assert(t.drop_last() =~= s.drop_last().insert(i, p));
        lemma_map_of_pairs_insert_mid(s.drop_last(), i, p);
        assert(s.last().0 != p.0);
        assert(map_of_pairs(t) == map_of_pairs(s.drop_last()).insert(p.0, p.1).insert(
            s.last().0,
            s.last().1,
        ));
        assert(map_of_pairs(s.drop_last()).insert(p.0, p.1).insert(s.last().0, s.last().1)
            =~= map_of_pairs(s.drop_last()).insert(s.last().0, s.last().1).insert(p.0, p.1));
    }
}

proof fn lemma_map_of_pairs_update(
    s: Seq<(Seq<char>, EntryModel)>,
    i: int,
    p: (Seq<char>, EntryModel),
)
    requires
        0 <= i < s.len(),
        s[i].0 == p.0,
        forall|l: int| i < l < s.len() ==> (#[trigger] s[l].0) != p.0,
    ensures
        map_of_pairs(s.update(i, p)) == map_of_pairs(s).insert(p.0, p.1),
    decreases s.len(),
{
    let t = s.update(i, p);
    if i == s.len() - 1 {
        assert(t.drop_last() =~= s.drop_last());
        assert(t.last() == p);
        assert(map_of_pairs(s.drop_last()).insert(s.last().0, s.last().1).insert(p.0, p.1)
            =~= map_of_pairs(s.drop_last()).insert(p.0, p.1));
    } else {
        assert(t.drop_last() =~= s.drop_last().update(i, p));
        assert(t.last() == s.last());
        lemma_map_of_pairs_update(s.drop_last(), i, p);
        assert(s.last().0 != p.0);
        assert(map_of_pairs(s.drop_last()).insert(p.0, p.1).insert(s.last().0, s.last().1)
            =~= map_of_pairs(s.drop_last()).insert(s.last().0, s.last().1).insert(p.0, p.1));
    }
}

/// Two strictly sorted pair sequences denoting the same mapping are equal.
proof fn lemma_sorted_pairs_unique(s1: Seq<(Seq<char>, EntryModel)>, s2: Seq<(Seq<char>, EntryModel)>)
    requires
        keys_sorted(s1),
        keys_sorted(s2),
        map_of_pairs(s1) == map_of_pairs(s2),
    ensures
        s1 == s2,
    decreases s1.len(),
{
    lemma_map_of_pairs_contains(s1, if s2.len() > 0 { s2.last().0 } else { Seq::empty() });
    lemma_map_of_pairs_contains(s2, if s1.len() > 0 { s1.last().0 } else { Seq::empty() });
    if s1.len() == 0 && s2.len() == 0 {
        assert(s1 =~= s2);
    } else if s1.len() == 0 {
        assert(s2[s2.len() - 1].0 == s2.last().0);
        assert(map_of_pairs(s1).contains_key(s2.last().0));
        assert(false);
    } else if s2.len() == 0 {
        assert(s1[s1.len() - 1].0 == s1.last().0);
        assert(map_of_pairs(s2).contains_key(s1.last().0));
        assert(false);
    } else {
        let k1 = s1.last().0;
        let k2 = s2.last().0;
        // The last key of each sequence is the maximum of the common domain,
        // so the last keys agree.
        assert(s1[s1.len() - 1].0 == k1);
        assert(map_of_pairs(s2).contains_key(k1));
        let j2 = choose|j: int| 0 <= j < s2.len() && s2[j].0 == k1;
        if j2 < s2.len() - 1 {
            assert(lex_lt(s2[j2].0, s2[s2.len() - 1].0));
        }
        assert(s2[s2.len() - 1].0 == k2);
        assert(map_of_pairs(s1).contains_key(k2));
        let j1 = choose|j: int| 0 <= j < s1.len() && s1[j].0 == k2;
        if j1 < s1.len() - 1 {
            assert(lex_lt(s1[j1].0, s1[s1.len() - 1].0));
        }
        if k1 != k2 {
            assert(lex_lt(k1, k2) && lex_lt(k2, k1));
            lemma_lex_lt_asymmetric(k1, k2);
            assert(false);
        }
        // Values at the last key agree.
        assert(forall|l: int| s1.len() - 1 < l < s1.len() ==> (#[trigger] s1[l].0) != k1);
        lemma_map_of_pairs_value(s1, s1.len() - 1);
        lemma_map_of_pairs_value(s2, s2.len() - 1);
        assert(s1.last().1 == s2.last().1);
        // The remainders denote the same mapping.
        assert forall|j: int| 0 <= j < s1.len() - 1 implies (#[trigger] s1[j].0) != k1 by {
            assert(lex_lt(s1[j].0, s1[s1.len() - 1].0));
            if s1[j].0 == k1 {
                lemma_lex_lt_irreflexive(k1);
            }
        }
        assert forall|j: int| 0 <= j < s2.len() - 1 implies (#[trigger] s2[j].0) != k2 by {
            assert(lex_lt(s2[j].0, s2[s2.len() - 1].0));
            if s2[j].0 == k2 {
                lemma_lex_lt_irreflexive(k2);
            }
        }
        lemma_map_of_pairs_contains(s1.drop_last(), k1);
        lemma_map_of_pairs_contains(s2.drop_last(), k2);
        assert forall|j: int| 0 <= j < s1.drop_last().len() implies (#[trigger] s1.drop_last()[j].0)
            != k1 by {
            assert(s1.drop_last()[j] == s1[j]);
        }
        assert forall|j: int| 0 <= j < s2.drop_last().len() implies (#[trigger] s2.drop_last()[j].0)
            != k2 by {
            assert(s2.drop_last()[j] == s2[j]);
        }
        assert(map_of_pairs(s1.drop_last()) =~= map_of_pairs(s1).remove(k1));
        assert(map_of_pairs(s2.drop_last()) =~= map_of_pairs(s2).remove(k2));
        lemma_sorted_pairs_unique(s1.drop_last(), s2.drop_last());
        assert(s1 =~= s1.drop_last().push(s1.last()));
        assert(s2 =~= s2.drop_last().push(s2.last()));
    }
}

/// The production build manifest: logical source paths mapped to their build
/// outputs, held with keys in strictly ascending order so that the canonical
/// serialization (and with it the version fingerprint) does not depend on the
/// order in which entries arrived.
#[derive(Debug, Clone)]
pub struct Manifest {
    entries: Vec<(String, ManifestEntry)>,
}

impl View for Manifest {
    type V = Map<Seq<char>, EntryModel>;

    closed spec fn view(&self) -> Map<Seq<char>, EntryModel> {
        map_of_pairs(self.model_seq())
    }
}

impl Manifest {
    /// The key/entry pairs in storage order.
    pub closed spec fn model_seq(self) -> Seq<(Seq<char>, EntryModel)> {
        Seq::new(self.entries@.len(), |i: int| (self.entries@[i].0@, self.entries@[i].1@))
    }

    /// Well-formedness: keys strictly ascending.
    pub open spec fn wf(self) -> bool {
        keys_sorted(self.model_seq())
    }

    /// Builds a manifest from key/entry pairs; a later pair with the same key
    /// replaces an earlier one.
    pub fn from_entries(list: Vec<(String, ManifestEntry)>) -> (m: Manifest)
        ensures
            m.wf(),
            m@ == map_of_pairs(
                Seq::new(list@.len(), |i: int| (list@[i].0@, list@[i].1@)),
            ),
    {
        let ghost full: Seq<(Seq<char>, EntryModel)> = Seq::new(
            list@.len(),
            |i: int| (list@[i].0@, list@[i].1@),
        );
        let mut list = list;
        let mut m = Manifest { entries: Vec::new() };
        proof {
            assert(m.model_seq() =~= Seq::<(Seq<char>, EntryModel)>::empty());
            assert(full.take(0) =~= Seq::<(Seq<char>, EntryModel)>::empty());
        }
        let ghost total: int = list@.len() as int;
        let ghost mut k: int = 0;
        while list.len() > 0
        invariant
            m.wf(),
            k == total - list@.len(),
            0 <= k <= total,
            total == full.len(),
            forall|i: int| 0 <= i < list@.len() ==> (#[trigger] list@[i].0@, list@[i].1@)
                == full[k + i],
            m@ == map_of_pairs(full.take(k)),
        decreases list@.len(),
        {
            let ghost lpre = list@;
            let p = list.remove(0);
            proof {
                assert((p.0@, p.1@) == full[k]);
                assert forall|i: int| 0 <= i < list@.len() implies (
                    #[trigger] list@[i].0@,
                    list@[i].1@,
                ) == full[k + 1 + i] by {
                    assert(list@[i] == lpre[i + 1]);
                }
            }
            m.insert_entry(p.0, p.1);
            proof {
                assert(full.take(k + 1).drop_last() =~= full.take(k));
                assert(full.take(k + 1).last() == full[k]);
                k = k + 1;
            }
        }
        proof {
            assert(full.take(total) =~= full);
        }
        m
    }

    /// Inserts one entry, replacing any entry with the same key.
    fn insert_entry(&mut self, key: String, e: ManifestEntry)
        requires
            old(self).wf(),
        ensures
            final(self).wf(),
            final(self)@ == old(self)@.insert(key@, e@),
    {
        let ghost s0 = old(self).model_seq();
        let mut i: usize = 0;
        while i < self.entries.len() && str_lt(self.entries[i].0.as_str(), key.as_str())
            invariant
                *self == *old(self),
                s0 == self.model_seq(),
                i <= self.entries@.len(),
                s0.len() == self.entries@.len(),
                forall|j: int| 0 <= j < i ==> lex_lt((#[trigger] s0[j]).0, key@),
            decreases self.entries.len() - i,
        {
            assert(s0[i as int].0 == self.entries@[i as int].0@);
            i = i + 1;
        }
        assert(i < s0.len() ==> !lex_lt(s0[i as int].0, key@));
        if i < self.entries.len() && str_eq(self.entries[i].0.as_str(), key.as_str()) {
            // Same key: replace the entry in place.
            assert(s0[i as int].0 == key@);
            self.entries.remove(i);
            self.entries.insert(i, (key, e));
            proof {
                let ghost p = (s0[i as int].0, e@);
                assert(self.model_seq() =~= s0.update(i as int, p));
                assert forall|l: int| i < l < s0.len() implies (#[trigger] s0[l].0) != p.0 by {
                    assert(lex_lt(s0[i as int].0, s0[l].0));
                    if s0[l].0 == p.0 {
                        lemma_lex_lt_irreflexive(p.0);
                    }
                }
                lemma_map_of_pairs_update(s0, i as int, p);
                assert forall|a: int, b: int|
                    0 <= a < b < self.model_seq().len() implies lex_lt(
                    (#[trigger] self.model_seq()[a]).0,
                    (#[trigger] self.model_seq()[b]).0,
                ) by {
                    assert(self.model_seq()[a].0 == s0[a].0);
                    assert(self.model_seq()[b].0 == s0[b].0);
                }
            }
        } else {
            // New key: it sits strictly between the scanned prefix and the rest.
            proof {
                if i < s0.len() {
                    assert(s0[i as int].0 != key@);
                    lemma_lex_lt_connected(key@, s0[i as int].0);
                    assert(lex_lt(key@, s0[i as int].0));
                }
                assert forall|l: int| i <= l < s0.len() implies lex_lt(
                    key@,
                    (#[trigger] s0[l]).0,
                ) by {
                    if l > i {
                        assert(lex_lt(s0[i as int].0, s0[l].0));
                        lemma_lex_lt_transitive(key@, s0[i as int].0, s0[l].0);
                    }
                }
            }
            self.entries.insert(i, (key, e));
            proof {
                let ghost p = (self.entries@[i as int].0@, e@);
                assert(self.model_seq() =~= s0.insert(i as int, p));
                assert forall|l: int| i <= l < s0.len() implies (#[trigger] s0[l].0) != p.0 by {
                    if s0[l].0 == p.0 {
                        lemma_lex_lt_irreflexive(p.0);
                    }
                }
                lemma_map_of_pairs_insert_mid(s0, i as int, p);
                let t = s0.insert(i as int, p);
                s0.insert_ensures(i as int, p);
                assert forall|a: int, b: int| 0 <= a < b < t.len() implies lex_lt(
                    (#[trigger] t[a]).0,
                    (#[trigger] t[b]).0,
                ) by {
                    if a < i && b < i {
                        assert(t[a] == s0[a] && t[b] == s0[b]);
                    } else if a < i && b == i {
                        assert(t[a] == s0[a] && t[b] == p);
                    } else if a < i && b > i {
                        assert(t[a] == s0[a] && t[b] == s0[b - 1]);
                        assert(i <= b - 1 < s0.len());
                    } else if a == i {
                        assert(t[a] == p && t[b] == s0[b - 1]);
                        assert(i <= b - 1 < s0.len());
                    } else {
                        assert(t[a] == s0[a - 1] && t[b] == s0[b - 1]);
                    }
                }
            }
        }
    }

    /// Looks a logical path up; absence means the asset was not built.
    pub fn entry(&self, path: &str) -> (r: Option<&ManifestEntry>)
        requires
            self.wf(),
        ensures
            match r {
                Some(e) => self@.contains_key(path@) && e@ == self@[path@],
                None => !self@.contains_key(path@),
            },
    {
        let ghost s = self.model_seq();
        proof {
            lemma_map_of_pairs_contains(s, path@);
        }
        let mut i: usize = 0;
        while i < self.entries.len()
            invariant
                i <= s.len(),
                s == self.model_seq(),
                self.wf(),
                forall|j: int| 0 <= j < i ==> (#[trigger] s[j].0) != path@,
            decreases self.entries.len() - i,
        {
            if str_eq(self.entries[i].0.as_str(), path) {
                proof {
                    assert(s[i as int].0 == path@);
                    assert forall|l: int| i < l < s.len() implies (#[trigger] s[l].0)
                        != s[i as int].0 by {
                        assert(lex_lt(s[i as int].0, s[l].0));
                        if s[l].0 == s[i as int].0 {
                            lemma_lex_lt_irreflexive(s[i as int].0);
                        }
                    }
                    lemma_map_of_pairs_value(s, i as int);
                }
                return Some(&self.entries[i].1);
            }
            i = i + 1;
        }
        None
    }
}

/// A run of `n` marker characters: the length of the following field,
/// written in unary so that the encoding is self-delimiting.
pub open spec fn unary(n: nat) -> Seq<char> {
    Seq::new(n, |i: int| '#')
}

/// A self-delimiting encoding of one string: its length in unary, a
/// separator, then the characters themselves, unescaped.
pub open spec fn enc_str(s: Seq<char>) -> Seq<char> {
    unary(s.len()) + ":"@ + s
}

/// The concatenated encodings of a list of strings.
pub open spec fn enc_strs(l: Seq<Seq<char>>) -> Seq<char>
    decreases l.len(),
{
    if l.len() == 0 {
        Seq::empty()
    } else {
        enc_strs(l.drop_last()) + enc_str(l.last())
    }
}

/// The encoding of one manifest pair: the key, the output file, then the
/// stylesheet list preceded by its length.
pub open spec fn enc_pair(p: (Seq<char>, EntryModel)) -> Seq<char> {
    enc_str(p.0) + enc_str(p.1.file) + unary(p.1.css.len()) + ":"@ + enc_strs(p.1.css)
}

/// The concatenated encodings of a pair sequence.
pub open spec fn enc_pairs(s: Seq<(Seq<char>, EntryModel)>) -> Seq<char>
    decreases s.len(),
{
    if s.len() == 0 {
        Seq::empty()
    } else {
        enc_pairs(s.drop_last()) + enc_pair(s.last())
    }
}

/// The canonical serialized form of a manifest: the number of entries, then
/// each entry's encoding, in the (sorted) storage order.
pub open spec fn canonical_encoding(s: Seq<(Seq<char>, EntryModel)>) -> Seq<char> {
    unary(s.len()) + ":"@ + enc_pairs(s)
}

proof fn lemma_enc_strs_left(l: Seq<Seq<char>>)
    requires
        l.len() > 0,
    ensures
        enc_strs(l) == enc_str(l[0]) + enc_strs(l.drop_first()),
    decreases l.len(),
{
    if l.len() == 1 {
        assert(l.drop_last() =~= Seq::<Seq<char>>::empty());
        assert(l.drop_first() =~= Seq::<Seq<char>>::empty());
        assert(l.last() == l[0]);
        assert(Seq::<char>::empty() + enc_str(l[0]) =~= enc_str(l[0]) + Seq::<char>::empty());
    } else {
        lemma_enc_strs_left(l.drop_last());
        assert(l.drop_last()[0] == l[0]);
        assert(l.drop_last().drop_first() =~= l.drop_first().drop_last());
        assert(l.drop_first().last() == l.last());
        assert(enc_str(l[0]) + enc_strs(l.drop_last().drop_first()) + enc_str(l.last())
            =~= enc_str(l[0]) + (enc_strs(l.drop_first().drop_last()) + enc_str(l.drop_first().last())));
    }
}

proof fn lemma_enc_pairs_left(s: Seq<(Seq<char>, EntryModel)>)
    requires
        s.len() > 0,
    ensures
        enc_pairs(s) == enc_pair(s[0]) + enc_pairs(s.drop_first()),
    decreases s.len(),
{
    if s.len() == 1 {
        assert(s.drop_last() =~= Seq::<(Seq<char>, EntryModel)>::empty());
        assert(s.drop_first() =~= Seq::<(Seq<char>, EntryModel)>::empty());
        assert(s.last() == s[0]);
        assert(Seq::<char>::empty() + enc_pair(s[0]) =~= enc_pair(s[0]) + Seq::<char>::empty());
    } else {
        lemma_enc_pairs_left(s.drop_last());
        assert(s.drop_last()[0] == s[0]);
        assert(s.drop_last().drop_first() =~= s.drop_first().drop_last());
        assert(s.drop_first().last() == s.last());
        assert(enc_pair(s[0]) + enc_pairs(s.drop_last().drop_first()) + enc_pair(s.last())
            =~= enc_pair(s[0]) + (enc_pairs(s.drop_first().drop_last()) + enc_pair(s.drop_first().last())));
    }
}

/// A unary length followed by the separator is a deterministic prefix: equal
/// continuations force equal lengths and equal remainders.
proof fn lemma_counted_prefix(a: nat, b: nat, r1: Seq<char>, r2: Seq<char>)
    requires
        unary(a) + ":"@ + r1 == unary(b) + ":"@ + r2,
    ensures
        a == b,
        r1 == r2,
{
    reveal_strlit(":");
    let s1 = unary(a) + ":"@ + r1;
    let s2 = unary(b) + ":"@ + r2;
    assert(s1.len() == a + 1 + r1.len());
    assert(s2.len() == b + 1 + r2.len());
    if a < b {
        assert(s1[a as int] == ':');
        assert(s2[a as int] == '#');
        assert(false);
    }
    if b < a {
        assert(s1[b as int] == '#');
        assert(s2[b as int] == ':');
        assert(false);
    }
    assert(r1 =~= s1.subrange(a as int + 1, s1.len() as int));
    assert(r2 =~= s2.subrange(a as int + 1, s2.len() as int));
}

/// The string encoding is a deterministic prefix.
proof fn lemma_enc_str_peel(s1: Seq<char>, s2: Seq<char>, r1: Seq<char>, r2: Seq<char>)
    requires
        enc_str(s1) + r1 == enc_str(s2) + r2,
    ensures
        s1 == s2,
        r1 == r2,
{
    assert(enc_str(s1) + r1 =~= unary(s1.len()) + ":"@ + (s1 + r1));
    assert(enc_str(s2) + r2 =~= unary(s2.len()) + ":"@ + (s2 + r2));
    lemma_counted_prefix(s1.len(), s2.len(), s1 + r1, s2 + r2);
    assert(s1 =~= (s1 + r1).subrange(0, s1.len() as int));
    assert(s2 =~= (s2 + r2).subrange(0, s2.len() as int));
    assert(r1 =~= (s1 + r1).subrange(s1.len() as int, (s1 + r1).len() as int));
    assert(r2 =~= (s2 + r2).subrange(s2.len() as int, (s2 + r2).len() as int));
}

/// Lists of known equal length encode as deterministic prefixes.
proof fn lemma_enc_strs_peel(l1: Seq<Seq<char>>, l2: Seq<Seq<char>>, r1: Seq<char>, r2: Seq<char>)
    requires
        l1.len() == l2.len(),
        enc_strs(l1) + r1 == enc_strs(l2) + r2,
    ensures
        l1 == l2,
        r1 == r2,
    decreases l1.len(),
{
    if l1.len() == 0 {
        assert(l1 =~= l2);
        assert(Seq::<char>::empty() + r1 =~= r1);
        assert(Seq::<char>::empty() + r2 =~= r2);
    } else {
        lemma_enc_strs_left(l1);
        lemma_enc_strs_left(l2);
        assert(enc_str(l1[0]) + (enc_strs(l1.drop_first()) + r1) =~= enc_strs(l1) + r1);
        assert(enc_str(l2[0]) + (enc_strs(l2.drop_first()) + r2) =~= enc_strs(l2) + r2);
        lemma_enc_str_peel(
            l1[0],
            l2[0],
            enc_strs(l1.drop_first()) + r1,
            enc_strs(l2.drop_first()) + r2,
        );
        lemma_enc_strs_peel(l1.drop_first(), l2.drop_first(), r1, r2);
        assert forall|k: int| 0 <= k < l1.len() implies l1[k] == l2[k] by {
            if k > 0 {
                assert(l1.drop_first()[k - 1] == l2.drop_first()[k - 1]);
            }
        }
        assert(l1 =~= l2);
    }
}

/// A pair's encoding is a deterministic prefix.
proof fn lemma_enc_pair_peel(
    p1: (Seq<char>, EntryModel),
    p2: (Seq<char>, EntryModel),
    r1: Seq<char>,
    r2: Seq<char>,
)
    requires
        enc_pair(p1) + r1 == enc_pair(p2) + r2,
    ensures
        p1 == p2,
        r1 == r2,
{
    let t1 = enc_str(p1.1.file) + unary(p1.1.css.len()) + ":"@ + enc_strs(p1.1.css) + r1;
    let t2 = enc_str(p2.1.file) + unary(p2.1.css.len()) + ":"@ + enc_strs(p2.1.css) + r2;
    assert(enc_str(p1.0) + t1 =~= enc_pair(p1) + r1);
    assert(enc_str(p2.0) + t2 =~= enc_pair(p2) + r2);
    lemma_enc_str_peel(p1.0, p2.0, t1, t2);
    let u1 = unary(p1.1.css.len()) + ":"@ + enc_strs(p1.1.css) + r1;
    let u2 = unary(p2.1.css.len()) + ":"@ + enc_strs(p2.1.css) + r2;
    assert(enc_str(p1.1.file) + u1 =~= t1);
    assert(enc_str(p2.1.file) + u2 =~= t2);
    lemma_enc_str_peel(p1.1.file, p2.1.file, u1, u2);
    assert(unary(p1.1.css.len()) + ":"@ + (enc_strs(p1.1.css) + r1) =~= u1);
    assert(unary(p2.1.css.len()) + ":"@ + (enc_strs(p2.1.css) + r2) =~= u2);
    lemma_counted_prefix(p1.1.css.len(), p2.1.css.len(), enc_strs(p1.1.css) + r1, enc_strs(
        p2.1.css,
    ) + r2);
    lemma_enc_strs_peel(p1.1.css, p2.1.css, r1, r2);
    assert(p1.1 == p2.1);
}

/// Pair sequences of known equal length encode as deterministic prefixes.
proof fn lemma_enc_pairs_peel(
    s1: Seq<(Seq<char>, EntryModel)>,
    s2: Seq<(Seq<char>, EntryModel)>,
    r1: Seq<char>,
    r2: Seq<char>,
)
    requires
        s1.len() == s2.len(),
        enc_pairs(s1) + r1 == enc_pairs(s2) + r2,
    ensures
        s1 == s2,
        r1 == r2,
    decreases s1.len(),
{
    if s1.len() == 0 {
        assert(s1 =~= s2);
        assert(Seq::<char>::empty() + r1 =~= r1);
        assert(Seq::<char>::empty() + r2 =~= r2);
    } else {
        lemma_enc_pairs_left(s1);
        lemma_enc_pairs_left(s2);
        assert(enc_pair(s1[0]) + (enc_pairs(s1.drop_first()) + r1) =~= enc_pairs(s1) + r1);
        assert(enc_pair(s2[0]) + (enc_pairs(s2.drop_first()) + r2) =~= enc_pairs(s2) + r2);
        lemma_enc_pair_peel(
            s1[0],
            s2[0],
            enc_pairs(s1.drop_first()) + r1,
            enc_pairs(s2.drop_first()) + r2,
        );
        lemma_enc_pairs_peel(s1.drop_first(), s2.drop_first(), r1, r2);
        assert forall|k: int| 0 <= k < s1.len() implies s1[k] == s2[k] by {
            if k > 0 {
                assert(s1.drop_first()[k - 1] == s2.drop_first()[k - 1]);
            }
        }
        assert(s1 =~= s2);
    }
}

/// The canonical encoding is injective on pair sequences.
proof fn lemma_canonical_encoding_injective_seq(
    s1: Seq<(Seq<char>, EntryModel)>,
    s2: Seq<(Seq<char>, EntryModel)>,
)
    requires
        canonical_encoding(s1) == canonical_encoding(s2),
    ensures
        s1 == s2,
{
    assert(unary(s1.len()) + ":"@ + enc_pairs(s1) == unary(s2.len()) + ":"@ + enc_pairs(s2));
    lemma_counted_prefix(s1.len(), s2.len(), enc_pairs(s1), enc_pairs(s2));
    assert(enc_pairs(s1) + Seq::<char>::empty() =~= enc_pairs(s1));
    assert(enc_pairs(s2) + Seq::<char>::empty() =~= enc_pairs(s2));
    lemma_enc_pairs_peel(s1, s2, Seq::empty(), Seq::empty());
}

/// Appends `n` unary marker characters.
fn append_unary(out: &mut String, n: usize)
    ensures
        final(out)@ == old(out)@ + unary(n as nat),
{
    let ghost base = out@;
    let mut i: usize = 0;
    proof {
        assert(unary(0) =~= Seq::<char>::empty());
        assert(base + unary(0) =~= base);
    }
    while i < n
        invariant
            i <= n,
            out@ == base + unary(i as nat),
        decreases n - i,
    {
        out.append("#");
        proof {
            reveal_strlit("#");
            assert(unary((i + 1) as nat) =~= unary(i as nat) + "#"@);
            assert(base + unary((i + 1) as nat) =~= base + unary(i as nat) + "#"@);
        }
        i = i + 1;
    }
}

/// Appends the self-delimiting encoding of one string.
fn append_enc_str(out: &mut String, s: &str)
    ensures
        final(out)@ == old(out)@ + enc_str(s@),
{
    let len: usize = s.unicode_len();
    append_unary(out, len);
    out.append(":");
    out.append(s);
    proof {
        assert(old(out)@ + unary(s@.len()) + ":"@ + s@ =~= old(out)@ + enc_str(s@));
    }
}

/// Appends the encoding of one manifest pair.
fn append_pair(out: &mut String, key: &str, e: &ManifestEntry)
    ensures
        final(out)@ == old(out)@ + enc_pair((key@, e@)),
{
    let ghost base = out@;
    let ghost cssv = e@.css;
    append_enc_str(out, key);
    append_enc_str(out, e.file.as_str());
    append_unary(out, e.css.len());
    out.append(":");
    let ghost mid = base + enc_str(key@) + enc_str(e@.file) + unary(cssv.len()) + ":"@;
    proof {
        assert(out@ =~= mid + enc_strs(cssv.take(0)));
    }
    let mut j: usize = 0;
    while j < e.css.len()
        invariant
            j <= cssv.len(),
            cssv == e@.css,
            cssv.len() == e.css@.len(),
            forall|l: int| 0 <= l < cssv.len() ==> cssv[l] == (#[trigger] e.css@[l])@,
            out@ == mid + enc_strs(cssv.take(j as int)),
        decreases e.css.len() - j,
    {
        append_enc_str(out, e.css[j].as_str());
        proof {
            assert(cssv.take(j + 1).drop_last() =~= cssv.take(j as int));
            assert(cssv.take(j + 1).last() == cssv[j as int]);
            assert(out@ =~= mid + enc_strs(cssv.take(j + 1)));
        }
        j = j + 1;
    }
    proof {
        assert(cssv.take(cssv.len() as int) =~= cssv);
        assert(mid + enc_strs(cssv) =~= base + enc_pair((key@, e@)));
    }
}

/// The hex digest that sha256::digest computes for a string.
pub uninterp spec fn sha256_hex_of(s: Seq<char>) -> Seq<char>;

/// Relies on sha256::digest: the SHA-256 digest of the UTF-8 bytes of the
/// input, returned as a hex string; it depends on the input characters alone.
#[verifier::external_body]
fn sha256_hex(s: &str) -> (r: String)
    ensures
        r@ == sha256_hex_of(s@),
{
    sha256::digest(s)
}

impl Manifest {
    /// The version fingerprint: the digest of the canonical serialized form.
    pub open spec fn fingerprint_of(self) -> Seq<char> {
        sha256_hex_of(canonical_encoding(self.model_seq()))
    }

    /// The canonical serialized form of this manifest.
    pub fn canonical_string(&self) -> (r: String)
        ensures
            r@ == canonical_encoding(self.model_seq()),
    {
        let ghost s = self.model_seq();
        let mut out = String::new();
        append_unary(&mut out, self.entries.len());
        out.append(":");
        let mut i: usize = 0;
        while i < self.entries.len()
            invariant
                i <= s.len(),
                s == self.model_seq(),
                s.len() == self.entries@.len(),
                out@ == unary(s.len()) + ":"@ + enc_pairs(s.take(i as int)),
            decreases self.entries.len() - i,
        {
            proof {
                assert(s[i as int].0 == self.entries@[i as int].0@);
                assert(s[i as int].1 == self.entries@[i as int].1@);
            }
            append_pair(&mut out, self.entries[i].0.as_str(), &self.entries[i].1);
            proof {
                assert(s.take(i + 1).drop_last() =~= s.take(i as int));
                assert(s.take(i + 1).last() == s[i as int]);
            }
            i = i + 1;
        }
        proof {
            assert(s.take(s.len() as int) =~= s);
        }
        out
    }

    /// Computes the version fingerprint of this manifest. Deterministic: two
    /// processes holding manifests with the same content obtain the same
    /// fingerprint. Meant to be computed once at process startup.
    pub fn fingerprint(&self) -> (r: String)
        ensures
            r@ == self.fingerprint_of(),
    {
        let canonical = self.canonical_string();
        sha256_hex(canonical.as_str())
    }
}

/// Order independence of the version fingerprint: well-formed manifests with
/// the same key/value content have the same canonical form, and with it the
/// same fingerprint, whatever order their entries were inserted in.
pub proof fn lemma_fingerprint_order_independent(m1: Manifest, m2: Manifest)
    requires
        m1.wf(),
        m2.wf(),
        m1@ == m2@,
    ensures
        m1.fingerprint_of() == m2.fingerprint_of(),
{
    lemma_sorted_pairs_unique(m1.model_seq(), m2.model_seq());
}

/// Sensitivity of the canonical form: the encoding is injective, so any
/// change to a manifest's content changes the serialized form handed to the
/// digest. The fingerprint itself then changes unless the digest collides.
pub proof fn lemma_canonical_form_injective(m1: Manifest, m2: Manifest)
    requires
        m1.wf(),
        m2.wf(),
        canonical_encoding(m1.model_seq()) == canonical_encoding(m2.model_seq()),
    ensures
        m1@ == m2@,
{
    lemma_canonical_encoding_injective_seq(m1.model_seq(), m2.model_seq());
}

/// A module script tag pointing at the dev server.
pub open spec fn dev_script_tag(dev: Seq<char>, path: Seq<char>) -> Seq<char> {
    "<script type=\"module\" src=\""@ + dev + "/"@ + path + "\"></script>"@
}

/// A stylesheet link tag for a built css file.
pub open spec fn stylesheet_link_tag(file: Seq<char>) -> Seq<char> {
    "<link rel=\"stylesheet\" href=\"/"@ + file + "\" />"@
}

/// A module script tag for a built output file.
pub open spec fn module_script_tag(file: Seq<char>) -> Seq<char> {
    "<script type=\"module\" src=\"/"@ + file + "\"></script>"@
}

/// The stylesheet link tags of an entry, newline separated, in listed order.
pub open spec fn css_links(css: Seq<Seq<char>>) -> Seq<char>
    decreases css.len(),
{
    if css.len() == 0 {
        Seq::empty()
    } else if css.len() == 1 {
        stylesheet_link_tag(css[0])
    } else {
        css_links(css.drop_last()) + "\n"@ + stylesheet_link_tag(css.last())
    }
}

/// The full markup for a production entry: every stylesheet link, in listed
/// order, followed by exactly one module script tag.
pub open spec fn production_asset_markup(e: EntryModel) -> Seq<char> {
    css_links(e.css) + module_script_tag(e.file)
}

proof fn lemma_css_links_step(css: Seq<Seq<char>>, i: int)
    requires
        0 <= i < css.len(),
    ensures
        css_links(css.take(i + 1)) == if i == 0 {
            stylesheet_link_tag(css[0])
        } else {
            css_links(css.take(i)) + "\n"@ + stylesheet_link_tag(css[i])
        },
{
    assert(css.take(i + 1).drop_last() =~= css.take(i));
    assert(css.take(i + 1).last() == css[i]);
    if i == 0 {
        assert(css.take(1)[0] == css[0]);
    }
}

/// The asset-resolution mode: a precomputed build manifest in production, a
/// live dev server in development. Selected once at process start.
#[derive(Debug, Clone)]
pub enum Vite {
    Production { manifest: Manifest },
    Development { dev_server: String },
}

impl Vite {
    pub open spec fn wf(self) -> bool {
        match self {
            Vite::Production { manifest } => manifest.wf(),
            Vite::Development { .. } => true,
        }
    }

    /// The server version: the manifest fingerprint in production, absent in
    /// development where staleness detection is meaningless.
    pub open spec fn version_spec(self) -> Option<Seq<char>> {
        match self {
            Vite::Production { manifest } => Some(manifest.fingerprint_of()),
            Vite::Development { .. } => None,
        }
    }

    /// What resolving a logical path yields: in development always a script
    /// tag pointing at the dev server; in production the entry's stylesheet
    /// links followed by its script tag, or nothing if the path was not built.
    pub open spec fn asset_spec(self, path: Seq<char>) -> Option<Seq<char>> {
        match self {
            Vite::Development { dev_server } => Some(dev_script_tag(dev_server@, path)),
            Vite::Production { manifest } => if manifest@.contains_key(path) {
                Some(production_asset_markup(manifest@[path]))
            } else {
                None
            },
        }
    }

    /// Resolves a logical asset path to markup. Absence in production means
    /// the asset was not part of the build: a configuration error the caller
    /// must surface, never a fallback.
    pub fn asset(&self, path: &str) -> (r: Option<String>)
        requires
            self.wf(),
        ensures
            match r {
                Some(s) => self.asset_spec(path@) == Some(s@),
                None => self.asset_spec(path@) == None::<Seq<char>>,
            },
    {
        match self {
            Vite::Development { dev_server } => {
                let mut out = String::from_str("<script type=\"module\" src=\"");
                out.append(dev_server.as_str());
                out.append("/");
                out.append(path);
                out.append("\"></script>");
                Some(out)
            },
            Vite::Production { manifest } => {
                match manifest.entry(path) {
                    None => None,
                    Some(e) => {
                        let ghost cssv = e@.css;
                        let mut out = String::new();
                        let mut j: usize = 0;
                        while j < e.css.len()
                            invariant
                                j <= cssv.len(),
                                cssv == e@.css,
                                cssv.len() == e.css@.len(),
                                forall|l: int| 0 <= l < cssv.len() ==> cssv[l] == (
                                #[trigger] e.css@[l])@,
                                out@ == css_links(cssv.take(j as int)),
                            decreases e.css.len() - j,
                        {
                            proof {
                                lemma_css_links_step(cssv, j as int);
                            }
                            if j > 0 {
                                out.append("\n");
                            }
                            out.append("<link rel=\"stylesheet\" href=\"/");
                            out.append(e.css[j].as_str());
                            out.append("\" />");
                            j = j + 1;
                        }
                        proof {
                            assert(cssv.take(cssv.len() as int) =~= cssv);
                        }
                        out.append("<script type=\"module\" src=\"/");
                        out.append(e.file.as_str());
                        out.append("\"></script>");
                        Some(out)
                    },
                }
            },
        }
    }

    /// The hot-reload bootstrap markup: the dev server's client connector and
    /// the fast-refresh shim, in development mode only.
    pub fn dev_scripts(&self) -> (r: Option<String>)
        ensures
            match r {
                Some(s) => self matches Vite::Development { dev_server } && s@ == dev_bootstrap(
                    dev_server@,
                ),
                None => self matches Vite::Production { .. },
            },
    {
        match self {
            Vite::Production { .. } => None,
            Vite::Development { dev_server } => {
                let mut out = String::from_str("<script type=\"module\" src=\"");
                out.append(dev_server.as_str());
                out.append("/@vite/client\"></script>\n<script type=\"module\">\n    import RefreshRuntime from '");
                out.append(dev_server.as_str());
                out.append("/@react-refresh'\n    RefreshRuntime.injectIntoGlobalHook(window)\n    window.$RefreshReg$ = () => {}\n    window.$RefreshSig$ = () => (type) => type\n    window.__vite_plugin_react_preamble_installed__ = true\n</script>\n");
                Some(out)
            },
        }
    }
}

/// The hot-reload client bootstrap markup for a dev server address.
pub open spec fn dev_bootstrap(dev: Seq<char>) -> Seq<char> {
    "<script type=\"module\" src=\""@ + dev
        + "/@vite/client\"></script>\n<script type=\"module\">\n    import RefreshRuntime from '"@
        + dev
        + "/@react-refresh'\n    RefreshRuntime.injectIntoGlobalHook(window)\n    window.$RefreshReg$ = () => {}\n    window.$RefreshSig$ = () => (type) => type\n    window.__vite_plugin_react_preamble_installed__ = true\n</script>\n"@
}

} // verus!
