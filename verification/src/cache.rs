//! Content fingerprints and the per-file extraction cache.
//!
//! A BLAKE3 fingerprint of a file's bytes decides whether its previous
//! extraction can be reused. The cache maps each path (compared as `Path`
//! compares, component by component) to the file's fingerprint and its shared
//! extraction.
use std::sync::Arc;

use vstd::prelude::*;

use crate::model::FileExtraction;
use crate::paths::{components, paths_equal};

verus! {

/// The 32-byte BLAKE3 digest of a byte string.
pub uninterp spec fn blake3_digest(bytes: Seq<u8>) -> Seq<u8>;

/// `blake3::hash`: the digest of the bytes, as its 32 raw bytes.
#[verifier::external_body]
fn blake3_hash(bytes: &[u8]) -> (r: [u8; 32])
    ensures
        r@ == blake3_digest(bytes@),
{
    *blake3::hash(bytes).as_bytes()
}

/// BLAKE3 cryptographic hash of a file's raw bytes.
#[derive(Debug, Clone, Copy, PartialEq, Eq, Hash)]
pub struct Fingerprint([u8; 32]);

impl Fingerprint {
    /// The 32 bytes of the digest.
    pub closed spec fn digest(self) -> Seq<u8> {
        self.0@
    }

    /// The fingerprint of a byte slice.
    pub fn of(bytes: &[u8]) -> (r: Fingerprint)
        ensures
            r.digest() == blake3_digest(bytes@),
    {
        Fingerprint(blake3_hash(bytes))
    }

    /// The raw 32-byte hash.
    pub fn as_bytes(&self) -> (r: &[u8; 32])
        ensures
            r@ == self.digest(),
    {
        &self.0
    }
}

/// The deterministic 256-bit BLAKE3 fingerprint of content bytes.
pub fn fingerprint(bytes: &[u8]) -> (r: Fingerprint)
    ensures
        r.digest() == blake3_digest(bytes@),
{
    Fingerprint::of(bytes)
}

/// One cached file: where it is, what its bytes hashed to, what was extracted.
#[derive(Debug)]
pub struct CachedFile {
    pub path: String,
    pub fingerprint: Fingerprint,
    pub extraction: Arc<FileExtraction>,
}

/// Fingerprint and extraction recorded for a path.
pub type CacheSlot = (Fingerprint, Arc<FileExtraction>);

/// The path key of a file: its components.
pub open spec fn path_key(p: Seq<char>) -> Seq<Seq<char>> {
    components(p)
}

/// The map a list of cached files stands for; a later file of the same path
/// replaces an earlier one.
pub open spec fn slot_map(files: Seq<CachedFile>) -> Map<Seq<Seq<char>>, CacheSlot>
    decreases files.len(),
{
    if files.len() == 0 {
        Map::empty()
    } else {
        slot_map(files.drop_last()).insert(
            path_key(files.last().path@),
            (files.last().fingerprint, files.last().extraction),
        )
    }
}

/// No two cached files share a path.
pub open spec fn distinct_paths(files: Seq<CachedFile>) -> bool {
    forall|i: int, j: int|
        0 <= i < files.len() && 0 <= j < files.len() && i != j ==> path_key(#[trigger] files[i].path@)
            != path_key(#[trigger] files[j].path@)
}

/// Cache of per-file extraction results keyed by path.
///
/// IDs inside the cached extractions stay valid. New extractions must start
/// above [`ExtractionCache::max_symbol_id`].
#[derive(Debug)]
pub struct ExtractionCache {
    files: Vec<CachedFile>,
}

proof fn lemma_slot_map_keys(files: Seq<CachedFile>)
    ensures
        slot_map(files).dom().finite(),
        forall|k: Seq<Seq<char>>|
            slot_map(files).contains_key(k) <==> exists|i: int|
                0 <= i < files.len() && path_key(#[trigger] files[i].path@) == k,
    decreases files.len(),
{
    if files.len() > 0 {
        let prev = files.drop_last();
        lemma_slot_map_keys(prev);
        assert forall|k: Seq<Seq<char>>|
            slot_map(files).contains_key(k) <==> exists|i: int|
                0 <= i < files.len() && path_key(#[trigger] files[i].path@) == k by {
            if slot_map(files).contains_key(k) && k != path_key(files.last().path@) {
                let i = choose|i: int| 0 <= i < prev.len() && path_key(#[trigger] prev[i].path@) == k;
                assert(files[i] == prev[i]);
            }
            if exists|i: int| 0 <= i < files.len() && path_key(#[trigger] files[i].path@) == k {
                let i = choose|i: int| 0 <= i < files.len() && path_key(#[trigger] files[i].path@) == k;
                if i < files.len() - 1 {
                    assert(prev[i] == files[i]);
                }
            }
        }
    }
}

proof fn lemma_slot_map_values(files: Seq<CachedFile>)
    requires
        distinct_paths(files),
    ensures
        forall|i: int|
            0 <= i < files.len() ==> slot_map(files)[path_key(#[trigger] files[i].path@)] == (
            files[i].fingerprint,
            files[i].extraction,
        ),
    decreases files.len(),
{
    if files.len() > 0 {
        let prev = files.drop_last();
        assert(distinct_paths(prev)) by {
            assert forall|i: int, j: int|
                0 <= i < prev.len() && 0 <= j < prev.len() && i != j implies path_key(#[trigger] prev[i].path@)
                != path_key(#[trigger] prev[j].path@) by {
                assert(prev[i] == files[i] && prev[j] == files[j]);
            }
        }
        lemma_slot_map_values(prev);
        assert forall|i: int| 0 <= i < files.len() implies slot_map(files)[path_key(
            #[trigger] files[i].path@,
        )] == (files[i].fingerprint, files[i].extraction) by {
            if i < files.len() - 1 {
                assert(prev[i] == files[i]);
                assert(path_key(files[i].path@) != path_key(files[files.len() - 1].path@));
            }
        }
    }
}

proof fn lemma_slot_map_len(files: Seq<CachedFile>)
    requires
        distinct_paths(files),
    ensures
        slot_map(files).len() == files.len(),
    decreases files.len(),
{
    if files.len() > 0 {
        let prev = files.drop_last();
        assert(distinct_paths(prev)) by {
            assert forall|i: int, j: int|
                0 <= i < prev.len() && 0 <= j < prev.len() && i != j implies path_key(#[trigger] prev[i].path@)
                != path_key(#[trigger] prev[j].path@) by {
                assert(prev[i] == files[i] && prev[j] == files[j]);
            }
        }
        lemma_slot_map_len(prev);
        lemma_slot_map_keys(prev);
        let k = path_key(files.last().path@);
        if slot_map(prev).contains_key(k) {
            let i = choose|i: int| 0 <= i < prev.len() && path_key(#[trigger] prev[i].path@) == k;
            assert(prev[i] == files[i]);
            assert(false);
        }
    }
}

/// Removing the file at index `i` of a list with distinct paths removes its
/// key from the map.
proof fn lemma_slot_map_remove(files: Seq<CachedFile>, i: int)
    requires
        distinct_paths(files),
        0 <= i < files.len(),
    ensures
        distinct_paths(files.remove(i)),
        slot_map(files.remove(i)) == slot_map(files).remove(path_key(files[i].path@)),
{
    let rest = files.remove(i);
    let k = path_key(files[i].path@);
    assert(distinct_paths(rest)) by {
        assert forall|a: int, b: int|
            0 <= a < rest.len() && 0 <= b < rest.len() && a != b implies path_key(#[trigger] rest[a].path@)
            != path_key(#[trigger] rest[b].path@) by {
            let fa = if a < i { a } else { a + 1 };
            let fb = if b < i { b } else { b + 1 };
            assert(rest[a] == files[fa] && rest[b] == files[fb]);
        }
    }
    lemma_slot_map_keys(files);
    lemma_slot_map_keys(rest);
    lemma_slot_map_values(files);
    lemma_slot_map_values(rest);
    assert forall|key: Seq<Seq<char>>| #[trigger] slot_map(rest).contains_key(key) <==> slot_map(files).remove(k).contains_key(key) by {
        if slot_map(rest).contains_key(key) {
            let a = choose|a: int| 0 <= a < rest.len() && path_key(#[trigger] rest[a].path@) == key;
            let fa = if a < i { a } else { a + 1 };
            assert(rest[a] == files[fa]);
        }
        if slot_map(files).remove(k).contains_key(key) {
            let a = choose|a: int| 0 <= a < files.len() && path_key(#[trigger] files[a].path@) == key;
            assert(a != i);
            let ra = if a < i { a } else { a - 1 };
            assert(rest[ra] == files[a]);
        }
    }
    assert forall|key: Seq<Seq<char>>| #[trigger] slot_map(rest).contains_key(key) implies slot_map(rest)[key] == slot_map(files)[key] by {
        let a = choose|a: int| 0 <= a < rest.len() && path_key(#[trigger] rest[a].path@) == key;
        let fa = if a < i { a } else { a + 1 };
        assert(rest[a] == files[fa]);
    }
    assert(slot_map(rest) =~= slot_map(files).remove(k));
}

/// Replacing the slot of the file at index `i` keeps its path and updates
/// the key's slot.
proof fn lemma_slot_map_set(files: Seq<CachedFile>, i: int, f: CachedFile)
    requires
        distinct_paths(files),
        0 <= i < files.len(),
        path_key(f.path@) == path_key(files[i].path@),
    ensures
        distinct_paths(files.update(i, f)),
        slot_map(files.update(i, f)) == slot_map(files).insert(path_key(f.path@), (f.fingerprint, f.extraction)),
{
    let next = files.update(i, f);
    assert(distinct_paths(next)) by {
        assert forall|a: int, b: int|
            0 <= a < next.len() && 0 <= b < next.len() && a != b implies path_key(#[trigger] next[a].path@)
            != path_key(#[trigger] next[b].path@) by {
            assert(path_key(next[a].path@) == path_key(files[a].path@));
            assert(path_key(next[b].path@) == path_key(files[b].path@));
        }
    }
    lemma_slot_map_keys(files);
    lemma_slot_map_keys(next);
    lemma_slot_map_values(files);
    lemma_slot_map_values(next);
    let k = path_key(f.path@);
    assert forall|key: Seq<Seq<char>>| #[trigger] slot_map(next).contains_key(key) <==> slot_map(files).insert(k, (f.fingerprint, f.extraction)).contains_key(key) by {
        if slot_map(next).contains_key(key) {
            let a = choose|a: int| 0 <= a < next.len() && path_key(#[trigger] next[a].path@) == key;
            assert(path_key(next[a].path@) == path_key(files[a].path@));
        }
        if slot_map(files).contains_key(key) {
            let a = choose|a: int| 0 <= a < files.len() && path_key(#[trigger] files[a].path@) == key;
            assert(path_key(next[a].path@) == path_key(files[a].path@));
        }
    }
    assert forall|key: Seq<Seq<char>>| #[trigger] slot_map(next).contains_key(key) implies slot_map(next)[key]
        == slot_map(files).insert(k, (f.fingerprint, f.extraction))[key] by {
        let a = choose|a: int| 0 <= a < next.len() && path_key(#[trigger] next[a].path@) == key;
        if a != i {
            assert(next[a] == files[a]);
        }
    }
    assert(slot_map(next) =~= slot_map(files).insert(k, (f.fingerprint, f.extraction)));
}

impl View for ExtractionCache {
    type V = Map<Seq<Seq<char>>, CacheSlot>;

    closed spec fn view(&self) -> Map<Seq<Seq<char>>, CacheSlot> {
        slot_map(self.files@)
    }
}

/// Every symbol ID of the cached extractions is at most `m`, and `m` is one
/// of them unless it is 0.
pub open spec fn is_max_symbol_id(cache: Map<Seq<Seq<char>>, CacheSlot>, m: u32) -> bool {
    &&& forall|k: Seq<Seq<char>>, i: int|
        cache.contains_key(k) && 0 <= i < cache[k].1.symbols@.len() ==> (#[trigger] cache[k].1.symbols@[i]).id.0 <= m
    &&& (m == 0 || exists|k: Seq<Seq<char>>, i: int|
        cache.contains_key(k) && 0 <= i < cache[k].1.symbols@.len() && (#[trigger] cache[k].1.symbols@[i]).id.0 == m)
}

/// Every data node ID of the cached extractions is at most `m`, and `m` is
/// one of them unless it is 0.
pub open spec fn is_max_data_node_id(cache: Map<Seq<Seq<char>>, CacheSlot>, m: u32) -> bool {
    &&& forall|k: Seq<Seq<char>>, i: int|
        cache.contains_key(k) && 0 <= i < cache[k].1.data_nodes@.len() ==> (#[trigger] cache[k].1.data_nodes@[i]).id.0 <= m
    &&& (m == 0 || exists|k: Seq<Seq<char>>, i: int|
        cache.contains_key(k) && 0 <= i < cache[k].1.data_nodes@.len() && (#[trigger] cache[k].1.data_nodes@[i]).id.0 == m)
}

impl ExtractionCache {
    #[verifier::type_invariant]
    spec fn inv(self) -> bool {
        distinct_paths(self.files@)
    }

    /// An empty cache.
    pub fn new() -> (r: ExtractionCache)
        ensures
            r@ == Map::<Seq<Seq<char>>, CacheSlot>::empty(),
            r@.dom().finite(),
    {
        ExtractionCache { files: Vec::new() }
    }

    /// Index of the cached file at `path`, if any.
    fn position(&self, path: &str) -> (r: Option<usize>)
        ensures
            match r {
                Some(i) => i < self.files@.len() && path_key(self.files@[i as int].path@) == path_key(path@),
                None => forall|i: int| 0 <= i < self.files@.len() ==> path_key(#[trigger] self.files@[i].path@) != path_key(path@),
            },
    {
        let mut i: usize = 0;
        while i < self.files.len()
            invariant
                0 <= i <= self.files@.len(),
                forall|j: int| 0 <= j < i ==> path_key(#[trigger] self.files@[j].path@) != path_key(path@),
            decreases self.files@.len() - i,
        {
            if paths_equal(self.files[i].path.as_str(), path) {
                return Some(i);
            }
            i = i + 1;
        }
        None
    }

    /// The cached extraction for a path.
    pub fn get(&self, path: &str) -> (r: Option<&Arc<FileExtraction>>)
        ensures
            match r {
                Some(e) => self@.contains_key(path_key(path@)) && *e == self@[path_key(path@)].1,
                None => !self@.contains_key(path_key(path@)),
            },
    {
        proof {
            use_type_invariant(self);
            lemma_slot_map_keys(self.files@);
            lemma_slot_map_values(self.files@);
        }
        match self.position(path) {
            Some(i) => Some(&self.files[i].extraction),
            None => None,
        }
    }

    /// The cached fingerprint for a path.
    pub fn fingerprint_of(&self, path: &str) -> (r: Option<Fingerprint>)
        ensures
            match r {
                Some(f) => self@.contains_key(path_key(path@)) && f == self@[path_key(path@)].0,
                None => !self@.contains_key(path_key(path@)),
            },
    {
        proof {
            use_type_invariant(self);
            lemma_slot_map_keys(self.files@);
            lemma_slot_map_values(self.files@);
        }
        match self.position(path) {
            Some(i) => Some(self.files[i].fingerprint),
            None => None,
        }
    }

    /// The highest raw symbol ID across all cached files (0 when there is none).
    pub fn max_symbol_id(&self) -> (r: u32)
        ensures
            is_max_symbol_id(self@, r),
    {
        proof {
            use_type_invariant(self);
            lemma_slot_map_keys(self.files@);
            lemma_slot_map_values(self.files@);
        }
        let ghost files = self.files@;
        let mut m: u32 = 0;
        let mut i: usize = 0;
        while i < self.files.len()
            invariant
                files == self.files@,
                0 <= i <= files.len(),
                forall|a: int, b: int|
                    0 <= a < i && 0 <= b < files[a].extraction.symbols@.len() ==> (#[trigger] files[a].extraction.symbols@[b]).id.0 <= m,
                m == 0 || exists|a: int, b: int|
                    0 <= a < i && 0 <= b < files[a].extraction.symbols@.len() && (#[trigger] files[a].extraction.symbols@[b]).id.0 == m,
            decreases files.len() - i,
        {
            let symbols = &self.files[i].extraction.symbols;
            let mut j: usize = 0;
            while j < symbols.len()
                invariant
                    files == self.files@,
                    0 <= i < files.len(),
                    symbols@ == files[i as int].extraction.symbols@,
                    0 <= j <= symbols@.len(),
                    forall|a: int, b: int|
                        0 <= a < i && 0 <= b < files[a].extraction.symbols@.len() ==> (#[trigger] files[a].extraction.symbols@[b]).id.0 <= m,
                    forall|b: int| 0 <= b < j ==> (#[trigger] symbols@[b]).id.0 <= m,
                    m == 0 || exists|a: int, b: int|
                        0 <= a <= i && 0 <= b < files[a].extraction.symbols@.len() && (#[trigger] files[a].extraction.symbols@[b]).id.0 == m,
                decreases symbols@.len() - j,
            {
                let id = symbols[j].id.to_raw();
                if id > m {
                    m = id;
                    proof {
                        assert(files[i as int].extraction.symbols@[j as int].id.0 == m);
                    }
                }
                j = j + 1;
            }
            i = i + 1;
        }
        proof {
            let cache = self@;
            assert forall|k: Seq<Seq<char>>, b: int|
                cache.contains_key(k) && 0 <= b < cache[k].1.symbols@.len() implies (#[trigger] cache[k].1.symbols@[b]).id.0 <= m by {
                let a = choose|a: int| 0 <= a < files.len() && path_key(#[trigger] files[a].path@) == k;
                assert(cache[k].1 == files[a].extraction);
                assert(files[a].extraction.symbols@[b] == cache[k].1.symbols@[b]);
            }
            if m != 0 {
                let (a, b) = choose|a: int, b: int|
                    0 <= a < files.len() && 0 <= b < files[a].extraction.symbols@.len() && (#[trigger] files[a].extraction.symbols@[b]).id.0 == m;
                let k = path_key(files[a].path@);
                assert(cache.contains_key(k));
                assert(cache[k].1 == files[a].extraction);
                assert(cache[k].1.symbols@[b].id.0 == m);
            }
        }
        m
    }

    /// The highest raw data node ID across all cached files (0 when there is none).
    pub fn max_data_node_id(&self) -> (r: u32)
        ensures
            is_max_data_node_id(self@, r),
    {
        proof {
            use_type_invariant(self);
            lemma_slot_map_keys(self.files@);
            lemma_slot_map_values(self.files@);
        }
        let ghost files = self.files@;
        let mut m: u32 = 0;
        let mut i: usize = 0;
        while i < self.files.len()
            invariant
                files == self.files@,
                0 <= i <= files.len(),
                forall|a: int, b: int|
                    0 <= a < i && 0 <= b < files[a].extraction.data_nodes@.len() ==> (#[trigger] files[a].extraction.data_nodes@[b]).id.0 <= m,
                m == 0 || exists|a: int, b: int|
                    0 <= a < i && 0 <= b < files[a].extraction.data_nodes@.len() && (#[trigger] files[a].extraction.data_nodes@[b]).id.0 == m,
            decreases files.len() - i,
        {
            let nodes = &self.files[i].extraction.data_nodes;
            let mut j: usize = 0;
            while j < nodes.len()
                invariant
                    files == self.files@,
                    0 <= i < files.len(),
                    nodes@ == files[i as int].extraction.data_nodes@,
                    0 <= j <= nodes@.len(),
                    forall|a: int, b: int|
                        0 <= a < i && 0 <= b < files[a].extraction.data_nodes@.len() ==> (#[trigger] files[a].extraction.data_nodes@[b]).id.0 <= m,
                    forall|b: int| 0 <= b < j ==> (#[trigger] nodes@[b]).id.0 <= m,
                    m == 0 || exists|a: int, b: int|
                        0 <= a <= i && 0 <= b < files[a].extraction.data_nodes@.len() && (#[trigger] files[a].extraction.data_nodes@[b]).id.0 == m,
                decreases nodes@.len() - j,
            {
                let id = nodes[j].id.to_raw();
                if id > m {
                    m = id;
                    proof {
                        assert(files[i as int].extraction.data_nodes@[j as int].id.0 == m);
                    }
                }
                j = j + 1;
            }
            i = i + 1;
        }
        proof {
            let cache = self@;
            assert forall|k: Seq<Seq<char>>, b: int|
                cache.contains_key(k) && 0 <= b < cache[k].1.data_nodes@.len() implies (#[trigger] cache[k].1.data_nodes@[b]).id.0 <= m by {
                let a = choose|a: int| 0 <= a < files.len() && path_key(#[trigger] files[a].path@) == k;
                assert(cache[k].1 == files[a].extraction);
                assert(files[a].extraction.data_nodes@[b] == cache[k].1.data_nodes@[b]);
            }
            if m != 0 {
                let (a, b) = choose|a: int, b: int|
                    0 <= a < files.len() && 0 <= b < files[a].extraction.data_nodes@.len() && (#[trigger] files[a].extraction.data_nodes@[b]).id.0 == m;
                let k = path_key(files[a].path@);
                assert(cache.contains_key(k));
                assert(cache[k].1 == files[a].extraction);
                assert(cache[k].1.data_nodes@[b].id.0 == m);
            }
        }
        m
    }

    /// Record a file's fingerprint and shared extraction, replacing what was
    /// cached for the same path.
    pub fn update(&mut self, path: String, fp: Fingerprint, extraction: Arc<FileExtraction>)
        ensures
            final(self)@ == old(self)@.insert(path_key(path@), (fp, extraction)),
            final(self)@.dom().finite(),
            final(self)@.len() == old(self)@.len() + if old(self)@.contains_key(path_key(path@)) { 0int } else { 1int },
    {
        proof {
            use_type_invariant(&*self);
            lemma_slot_map_keys(self.files@);
        }
        let found = self.position(path.as_str());
        let mut files: Vec<CachedFile> = Vec::new();
        std::mem::swap(&mut files, &mut self.files);
        let ghost before = files@;
        match found {
            Some(i) => {
                let kept = files[i].path.clone();
                let entry = CachedFile { path: kept, fingerprint: fp, extraction };
                proof {
                    lemma_slot_map_set(before, i as int, entry);
                }
                files.set(i, entry);
            },
            None => {
                let entry = CachedFile { path, fingerprint: fp, extraction };
                files.push(entry);
                proof {
                    assert(files@.drop_last() == before);
                    assert forall|a: int, b: int|
                        0 <= a < files@.len() && 0 <= b < files@.len() && a != b implies path_key(#[trigger] files@[a].path@)
                        != path_key(#[trigger] files@[b].path@) by {
                        if a < before.len() && b < before.len() {
                            assert(files@[a] == before[a] && files@[b] == before[b]);
                        } else if a < before.len() {
                            assert(files@[a] == before[a]);
                        } else {
                            assert(files@[b] == before[b]);
                        }
                    }
                }
            },
        }
        self.files = files;
    }

    /// Forget a file's fingerprint and extraction.
    pub fn remove(&mut self, path: &str)
        ensures
            final(self)@ == old(self)@.remove(path_key(path@)),
            final(self)@.dom().finite(),
            final(self)@.len() == old(self)@.len() - if old(self)@.contains_key(path_key(path@)) { 1int } else { 0int },
    {
        proof {
            use_type_invariant(&*self);
            lemma_slot_map_keys(self.files@);
        }
        let found = self.position(path);
        match found {
            Some(i) => {
                let mut files: Vec<CachedFile> = Vec::new();
                std::mem::swap(&mut files, &mut self.files);
                let ghost before = files@;
                proof {
                    lemma_slot_map_remove(before, i as int);
                }
                files.remove(i);
                self.files = files;
            },
            None => {
                proof {
                    assert(self@ =~= self@.remove(path_key(path@)));
                }
            },
        }
    }

    /// Number of cached files.
    pub fn len(&self) -> (r: usize)
        ensures
            r == self@.len(),
            self@.dom().finite(),
    {
        proof {
            use_type_invariant(self);
            lemma_slot_map_keys(self.files@);
            lemma_slot_map_len(self.files@);
        }
        self.files.len()
    }

    /// True when no file is cached.
    pub fn is_empty(&self) -> (r: bool)
        ensures
            r == (self@.len() == 0),
    {
        proof {
            use_type_invariant(self);
            lemma_slot_map_len(self.files@);
        }
        self.files.len() == 0
    }

    /// The cached paths, one per cached file.
    pub fn paths(&self) -> (r: Vec<String>)
        ensures
            r@.len() == self@.len(),
            forall|i: int| 0 <= i < r@.len() ==> self@.contains_key(path_key(#[trigger] r@[i]@)),
            forall|k: Seq<Seq<char>>| self@.contains_key(k) ==> exists|i: int| 0 <= i < r@.len() && path_key(#[trigger] r@[i]@) == k,
    {
        proof {
            use_type_invariant(self);
            lemma_slot_map_len(self.files@);
            lemma_slot_map_keys(self.files@);
        }
        let mut out: Vec<String> = Vec::new();
        let mut i: usize = 0;
        while i < self.files.len()
            invariant
                0 <= i <= self.files@.len(),
                out@.len() == i,
                forall|j: int| 0 <= j < i ==> (#[trigger] out@[j])@ == self.files@[j].path@,
            decreases self.files@.len() - i,
        {
            out.push(self.files[i].path.clone());
            i = i + 1;
        }
        proof {
            assert forall|k: Seq<Seq<char>>| self@.contains_key(k) implies exists|i: int| 0 <= i < out@.len() && path_key(#[trigger] out@[i]@) == k by {
                let a = choose|a: int| 0 <= a < self.files@.len() && path_key(#[trigger] self.files@[a].path@) == k;
                assert(out@[a]@ == self.files@[a].path@);
            }
            assert forall|i: int| 0 <= i < out@.len() implies self@.contains_key(path_key(#[trigger] out@[i]@)) by {
                assert(out@[i]@ == self.files@[i].path@);
            }
        }
        out
    }
}

/// A file recorded by `update` is found again under its path, with the
/// fingerprint and extraction given; after `remove` nothing is found.
pub proof fn lemma_update_then_lookup(
    cache: Map<Seq<Seq<char>>, CacheSlot>,
    path: Seq<char>,
    fp: Fingerprint,
    extraction: Arc<FileExtraction>,
)
    ensures
        cache.insert(path_key(path), (fp, extraction)).contains_key(path_key(path)),
        cache.insert(path_key(path), (fp, extraction))[path_key(path)] == (fp, extraction),
        !cache.insert(path_key(path), (fp, extraction)).remove(path_key(path)).contains_key(path_key(path)),
{
}

} // verus!
