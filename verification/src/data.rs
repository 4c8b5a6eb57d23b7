//! The dedup database: a persistent mapping from a page fingerprint (a
//! lowercase hex string) to the ordered image records downloaded for it.
//! Keys are stable once written; values are only ever inserted, never
//! mutated.

use vstd::prelude::*;

verus! {

/// One downloaded image: its chosen local file name, when one was
/// derivable, and its absolute URL.
#[derive(Debug, Clone, PartialEq, Eq)]
pub struct ImageInfo {
    pub name: Option<String>,
    pub url: String,
}

/// The mathematical value of an [`ImageInfo`].
pub ghost struct ImageInfoView {
    pub name: Option<Seq<char>>,
    pub url: Seq<char>,
}

impl View for ImageInfo {
    type V = ImageInfoView;

    open spec fn view(&self) -> ImageInfoView {
        ImageInfoView {
            name: match self.name {
                Some(n) => Some(n@),
                None => None,
            },
            url: self.url@,
        }
    }
}

impl DeepView for ImageInfo {
    type V = ImageInfoView;

    open spec fn deep_view(&self) -> ImageInfoView {
        self.view()
    }
}

/// The dedup database. The entries stand in insertion order; their keys
/// are pairwise distinct (see [`Data::wf`]), so the entry list denotes
/// the mapping given by [`Data::view`].
#[derive(Debug, Clone, PartialEq, Eq)]
pub struct Data {
    pub topisc: Vec<(String, Vec<ImageInfo>)>,
}

/// No fingerprint occurs twice in an entry sequence.
pub open spec fn unique_keys(es: Seq<(Seq<char>, Seq<ImageInfoView>)>) -> bool {
    forall|i: int, j: int| 0 <= i < j < es.len() ==> es[i].0 != es[j].0
}

/// The mapping denoted by a sequence of (fingerprint, records) entries;
/// a later entry for the same key would win.
pub open spec fn map_of(s: Seq<(Seq<char>, Seq<ImageInfoView>)>) -> Map<
    Seq<char>,
    Seq<ImageInfoView>,
>
    decreases s.len(),
{
    if s.len() == 0 {
        Map::empty()
    } else {
        map_of(s.drop_last()).insert(s.last().0, s.last().1)
    }
}

impl Data {
    /// The entry list as a sequence of mathematical pairs.
    pub open spec fn entries(self) -> Seq<(Seq<char>, Seq<ImageInfoView>)> {
        self.topisc.deep_view()
    }

    /// Well-formed: no fingerprint occurs twice.
    pub open spec fn wf(self) -> bool {
        unique_keys(self.entries())
    }

    /// The fingerprint-to-records mapping this database denotes.
    pub open spec fn view(self) -> Map<Seq<char>, Seq<ImageInfoView>> {
        map_of(self.entries())
    }

    /// An empty database, the starting point when no snapshot exists.
    pub fn new() -> (r: Data)
        ensures
            r.wf(),
            r@ == Map::<Seq<char>, Seq<ImageInfoView>>::empty(),
            r.entries().len() == 0,
    {
        Data { topisc: Vec::new() }
    }

    /// How many fingerprints are recorded.
    pub fn len(&self) -> (r: usize)
        ensures
            r == self.entries().len(),
    {
        self.topisc.len()
    }

    /// The fingerprint of the entry at position `i`.
    pub fn key_at(&self, i: usize) -> (r: &String)
        requires
            i < self.entries().len(),
        ensures
            r@ == self.entries()[i as int].0,
    {
        &self.topisc[i].0
    }

    /// The image records of the entry at position `i`.
    pub fn infos_at(&self, i: usize) -> (r: &Vec<ImageInfo>)
        requires
            i < self.entries().len(),
        ensures
            r.deep_view() == self.entries()[i as int].1,
    {
        &self.topisc[i].1
    }

    /// Whether a download for this fingerprint has already completed.
    pub fn contains_key(&self, key: &str) -> (r: bool)
        ensures
            r == self@.contains_key(key@),
    {
        proof {
            lemma_map_of_contains(self.entries(), key@);
        }
        let n = self.topisc.len();
        let mut i: usize = 0;
        while i < n
            invariant
                i <= n,
                n == self.entries().len(),
                forall|j: int| 0 <= j < i ==> self.entries()[j].0 != key@,
            decreases n - i,
        {
            if crate::text::str_eq(self.topisc[i].0.as_str(), key) {
                proof {
                    assert(self.entries()[i as int].0 == self.topisc@[i as int].0@);
                    assert(exists|j: int|
                        0 <= j < self.entries().len() && self.entries()[j].0 == key@) by {
                        assert(self.entries()[i as int].0 == key@);
                    }
                    lemma_map_of_contains(self.entries(), key@);
                }
                return true;
            }
            proof {
                assert(self.entries()[i as int].0 == self.topisc@[i as int].0@);
            }
            i = i + 1;
        }
        false
    }

    /// Record a completed download: insert a fresh fingerprint with its
    /// image records. Only new fingerprints are ever inserted.
    pub fn insert(&mut self, key: String, value: Vec<ImageInfo>)
        requires
            old(self).wf(),
            !old(self)@.contains_key(key@),
        ensures
            final(self).wf(),
            final(self)@ == old(self)@.insert(key@, value.deep_view()),
            final(self).entries() == old(self).entries().push((key@, value.deep_view())),
    {
        proof {
            // the key is fresh, so no existing entry carries it
            lemma_map_of_contains(self.entries(), key@);
            assert(self.topisc.deep_view().push((key@, value.deep_view())).drop_last()
                =~= self.topisc.deep_view());
        }
        self.topisc.push((key, value));
        proof {
            assert(self.topisc.deep_view() =~= old(self).topisc.deep_view().push(
                (key@, value.deep_view()),
            ));
        }
    }

    /// The records stored for a fingerprint, when it is present.
    pub fn get(&self, key: &str) -> (r: Option<&Vec<ImageInfo>>)
        requires
            self.wf(),
        ensures
            match r {
                Some(v) => self@.contains_key(key@) && v.deep_view() == self@[key@],
                None => !self@.contains_key(key@),
            },
    {
        proof {
            lemma_map_of_contains(self.entries(), key@);
        }
        let n = self.topisc.len();
        let mut i: usize = 0;
        while i < n
            invariant
                i <= n,
                self.wf(),
                n == self.entries().len(),
                forall|j: int| 0 <= j < i ==> self.entries()[j].0 != key@,
            decreases n - i,
        {
            proof {
                assert(self.entries()[i as int].0 == self.topisc@[i as int].0@);
                assert(self.entries()[i as int].1 == self.topisc@[i as int].1.deep_view());
            }
            if crate::text::str_eq(self.topisc[i].0.as_str(), key) {
                proof {
                    lemma_map_of_unique_key(self.entries(), i as int);
                }
                return Some(&self.topisc[i].1);
            }
            i = i + 1;
        }
        None
    }
}

/// A key is in the denoted mapping exactly when some entry carries it.
pub proof fn lemma_map_of_contains(s: Seq<(Seq<char>, Seq<ImageInfoView>)>, key: Seq<char>)
    ensures
        map_of(s).contains_key(key) <==> exists|i: int| 0 <= i < s.len() && s[i].0 == key,
    decreases s.len(),
{
    if s.len() > 0 {
        lemma_map_of_contains(s.drop_last(), key);
        if map_of(s).contains_key(key) && s.last().0 != key {
            let i = choose|i: int| 0 <= i < s.drop_last().len() && s.drop_last()[i].0 == key;
            assert(s[i].0 == key);
        }
        if exists|i: int| 0 <= i < s.len() && s[i].0 == key {
            let i = choose|i: int| 0 <= i < s.len() && s[i].0 == key;
            if i < s.len() - 1 {
                assert(s.drop_last()[i].0 == key);
            }
        }
    }
}

/// With pairwise-distinct keys, the mapping sends the key of entry `i`
/// to the value of entry `i`.
proof fn lemma_map_of_unique_key(s: Seq<(Seq<char>, Seq<ImageInfoView>)>, i: int)
    requires
        0 <= i < s.len(),
        forall|p: int, q: int| 0 <= p < q < s.len() ==> s[p].0 != s[q].0,
    ensures
        map_of(s).contains_key(s[i].0),
        map_of(s)[s[i].0] == s[i].1,
    decreases s.len(),
{
    lemma_map_of_contains(s, s[i].0);
    if i < s.len() - 1 {
        assert(s.last().0 != s[i].0);
        lemma_map_of_unique_key(s.drop_last(), i);
        assert(s.drop_last()[i] == s[i]);
    }
}

} // verus!
