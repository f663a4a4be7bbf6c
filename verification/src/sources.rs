//! Where terms and rules come from: origin tags and the registry of
//! loaded source texts.

use std::collections::HashMap;
use vstd::prelude::*;

verus! {

broadcast use vstd::std_specs::hash::group_hash_axioms;

/// The origin of a term or rule.
#[derive(Debug, Clone, Copy, Hash, PartialEq, Eq, Structural)]
pub enum SourceInfo {
    /// Produced by the parser.
    Parser {
        /// Identifier of the source text in the registry.
        src_id: u64,
        /// Where the construct starts within that text.
        left: usize,
        /// Where the construct ends within that text.
        right: usize,
    },
    /// Created as a temporary variable.
    TemporaryVariable,
    /// Created by a foreign call.
    Ffi,
    /// Created for a test.
    Test,
}

impl SourceInfo {
    /// The origin of anything created by a foreign call.
    pub fn ffi() -> (info: Self)
        ensures
            info == SourceInfo::Ffi,
    {
        Self::Ffi
    }
}

/// A source text, and the file it came from if it came from one.
#[derive(Debug, PartialEq, Eq)]
pub struct Source {
    pub filename: Option<String>,
    pub src: String,
}

/// A source as plain values.
pub struct SourceView {
    pub filename: Option<Seq<char>>,
    pub src: Seq<char>,
}

impl View for Source {
    type V = SourceView;

    open spec fn view(&self) -> SourceView {
        SourceView {
            filename: match self.filename {
                Some(name) => Some(name@),
                None => None,
            },
            src: self.src@,
        }
    }
}

impl Clone for Source {
    fn clone(&self) -> (copy: Self)
        ensures
            copy == *self,
    {
        let filename = match &self.filename {
            Some(name) => Some(name.clone()),
            None => None,
        };
        Source { filename, src: self.src.clone() }
    }
}

impl Default for Source {
    fn default() -> (source: Self)
        ensures
            source.filename is None,
            source.src@ == Seq::<char>::empty(),
    {
        Source { filename: None, src: String::new() }
    }
}

/// The file index as a map: each name in `entries` to the id beside it.
spec fn file_index(entries: Seq<(String, u64)>) -> Map<Seq<char>, u64> {
    Map::new(
        |name: Seq<char>| exists|i: int| 0 <= i < entries.len() && entries[i].0@ == name,
        |name: Seq<char>|
            entries[choose|i: int| 0 <= i < entries.len() && entries[i].0@ == name].1,
    )
}

/// No file name occurs twice in `entries`.
spec fn distinct_names(entries: Seq<(String, u64)>) -> bool {
    forall|i: int, j: int|
        0 <= i < entries.len() && 0 <= j < entries.len() && i != j ==> entries[i].0@
            != entries[j].0@
}

/// With distinct names, the index maps the name at position `k` to the id
/// at position `k`.
proof fn lemma_file_index_at(entries: Seq<(String, u64)>, k: int)
    requires
        distinct_names(entries),
        0 <= k < entries.len(),
    ensures
        file_index(entries).contains_key(entries[k].0@),
        file_index(entries)[entries[k].0@] == entries[k].1,
{
    let name = entries[k].0@;
    let found = choose|i: int| 0 <= i < entries.len() && entries[i].0@ == name;
    assert(found == k);
}

/// The registry of source texts: each under a numeric id, and each file
/// name with the id of its text.
pub struct Sources {
    /// Source id to source.
    sources: HashMap<u64, Source>,
    /// File name to source id; no name occurs twice.
    files: Vec<(String, u64)>,
}

impl Default for Sources {
    /// A registry that holds only the placeholder text for unknown origins,
    /// under id 0.
    fn default() -> (registry: Self)
        ensures
            registry.wf(),
            registry.sources() == Map::<u64, SourceView>::empty().insert(
                0,
                SourceView { filename: None, src: "<Unknown>"@ },
            ),
            registry.files() == Map::<Seq<char>, u64>::empty(),
    {
        let mut sources: HashMap<u64, Source> = HashMap::new();
        sources.insert(0, Source { filename: None, src: String::from_str("<Unknown>") });
        let registry = Sources { sources, files: Vec::new() };
        proof {
            assert(registry.sources() =~= Map::<u64, SourceView>::empty().insert(
                0,
                SourceView { filename: None, src: "<Unknown>"@ },
            ));
            assert(registry.files() =~= Map::<Seq<char>, u64>::empty());
        }
        registry
    }
}

impl Sources {
    /// The registered sources, by id.
    pub closed spec fn sources(&self) -> Map<u64, SourceView> {
        self.sources@.map_values(|source: Source| source@)
    }

    /// The id on record for each file name.
    pub closed spec fn files(&self) -> Map<Seq<char>, u64> {
        file_index(self.files@)
    }

    /// The representation invariant: the file index names no file twice.
    pub closed spec fn wf(&self) -> bool {
        distinct_names(self.files@)
    }

    /// Puts `name` on record with `id`, in place of any earlier id.
    fn set_file(&mut self, name: String, id: u64)
        requires
            old(self).wf(),
        ensures
            final(self).wf(),
            final(self).sources() == old(self).sources(),
            final(self).files() == old(self).files().insert(name@, id),
    {
        let mut i: usize = 0;
        while i < self.files.len()
            invariant
                i <= self.files.len(),
                *self == *old(self),
                self.wf(),
                forall|k: int| 0 <= k < i ==> self.files@[k].0@ != name@,
            decreases self.files.len() - i,
        {
            if self.files[i].0 == name {
                let ghost before = self.files@;
                self.files.set(i, (name, id));
                proof {
                    let after = self.files@;
                    assert(distinct_names(after)) by {
                        assert forall|a: int, b: int|
                            0 <= a < after.len() && 0 <= b < after.len() && a != b implies after[a].0@
                            != after[b].0@ by {
                            assert(after[a].0@ == before[a].0@);
                            assert(after[b].0@ == before[b].0@);
                        }
                    }
                    assert forall|key: Seq<char>|
                        file_index(after).contains_key(key) == file_index(before).insert(
                            name@,
                            id,
                        ).contains_key(key) by {
                        if file_index(after).contains_key(key) {
                            let k = choose|k: int| 0 <= k < after.len() && after[k].0@ == key;
                            assert(before[k].0@ == key);
                        }
                        if file_index(before).contains_key(key) {
                            let k = choose|k: int| 0 <= k < before.len() && before[k].0@ == key;
                            assert(after[k].0@ == key);
                        }
                        if key == name@ {
                            assert(after[i as int].0@ == key);
                        }
                    }
                    assert forall|key: Seq<char>| file_index(after).contains_key(key) implies (
                    #[trigger] file_index(after)[key]) == file_index(before).insert(name@, id)[key] by {
                        let k = choose|k: int| 0 <= k < after.len() && after[k].0@ == key;
                        lemma_file_index_at(after, k);
                        if key != name@ {
                            assert(before[k].0@ == key);
                            lemma_file_index_at(before, k);
                        }
                    }
                    assert(file_index(after) =~= file_index(before).insert(name@, id));
                }
                return ;
            }
            i += 1;
        }
        let ghost before = self.files@;
        self.files.push((name, id));
        proof {
            let after = self.files@;
            let n = before.len() as int;
            assert(distinct_names(after)) by {
                assert forall|a: int, b: int|
                    0 <= a < after.len() && 0 <= b < after.len() && a != b implies after[a].0@
                    != after[b].0@ by {
                    if a < n {
                        assert(after[a] == before[a]);
                    }
                    if b < n {
                        assert(after[b] == before[b]);
                    }
                }
            }
            assert forall|key: Seq<char>|
                file_index(after).contains_key(key) == file_index(before).insert(
                    name@,
                    id,
                ).contains_key(key) by {
                if file_index(after).contains_key(key) {
                    let k = choose|k: int| 0 <= k < after.len() && after[k].0@ == key;
                    if k < n {
                        assert(before[k].0@ == key);
                    }
                }
                if file_index(before).contains_key(key) {
                    let k = choose|k: int| 0 <= k < before.len() && before[k].0@ == key;
                    assert(after[k].0@ == key);
                }
                if key == name@ {
                    assert(after[n].0@ == key);
                }
            }
            assert forall|key: Seq<char>| file_index(after).contains_key(key) implies (
            #[trigger] file_index(after)[key]) == file_index(before).insert(name@, id)[key] by {
                let k = choose|k: int| 0 <= k < after.len() && after[k].0@ == key;
                lemma_file_index_at(after, k);
                if key != name@ {
                    assert(before[k] == after[k]);
                    lemma_file_index_at(before, k);
                }
            }
            assert(file_index(after) =~= file_index(before).insert(name@, id));
        }
    }

    /// Registers `source` under `id`, replacing any source that had this
    /// id, and records the id for the source's file name if it has one.
    pub fn add_source(&mut self, source: Source, id: u64)
        requires
            old(self).wf(),
        ensures
            final(self).wf(),
            final(self).sources() == old(self).sources().insert(id, source@),
            final(self).files() == match source.filename {
                Some(name) => old(self).files().insert(name@, id),
                None => old(self).files(),
            },
    {
        match &source.filename {
            Some(name) => {
                self.set_file(name.clone(), id);
            },
            None => {},
        }
        let ghost view = source@;
        self.sources.insert(id, source);
        proof {
            assert(self.sources() =~= old(self).sources().insert(id, view));
        }
    }

    /// The source registered under `src_id`, if there is one.
    pub fn get_source(&self, src_id: u64) -> (found: Option<Source>)
        ensures
            match found {
                Some(source) => self.sources().contains_key(src_id) && source@
                    == self.sources()[src_id],
                None => !self.sources().contains_key(src_id),
            },
    {
        match self.sources.get(&src_id) {
            Some(source) => Some(source.clone()),
            None => None,
        }
    }

    /// The id on record for the file `filename`, if it is on record.
    pub fn source_id(&self, filename: &str) -> (found: Option<u64>)
        requires
            self.wf(),
        ensures
            found == if self.files().contains_key(filename@) {
                Some(self.files()[filename@])
            } else {
                None
            },
    {
        let name = String::from_str(filename);
        let mut i: usize = 0;
        while i < self.files.len()
            invariant
                i <= self.files.len(),
                name@ == filename@,
                self.wf(),
                forall|k: int| 0 <= k < i ==> self.files@[k].0@ != name@,
            decreases self.files.len() - i,
        {
            if self.files[i].0 == name {
                proof {
                    lemma_file_index_at(self.files@, i as int);
                }
                return Some(self.files[i].1);
            }
            i += 1;
        }
        None
    }

    /// Takes the file `filename` off the record, together with the source
    /// registered under its id, and hands that source back.
    pub fn remove_file(&mut self, filename: &str) -> (removed: Option<Source>)
        requires
            old(self).wf(),
        ensures
            final(self).wf(),
            final(self).files() == old(self).files().remove(filename@),
            old(self).files().contains_key(filename@) ==> final(self).sources() == old(
                self,
            ).sources().remove(old(self).files()[filename@]) && match removed {
                Some(source) => old(self).sources().contains_key(old(self).files()[filename@])
                    && source@ == old(self).sources()[old(self).files()[filename@]],
                None => !old(self).sources().contains_key(old(self).files()[filename@]),
            },
            !old(self).files().contains_key(filename@) ==> final(self).sources() == old(
                self,
            ).sources() && removed is None,
    {
        let name = String::from_str(filename);
        let mut i: usize = 0;
        while i < self.files.len()
            invariant
                i <= self.files.len(),
                name@ == filename@,
                *self == *old(self),
                self.wf(),
                forall|k: int| 0 <= k < i ==> self.files@[k].0@ != name@,
            decreases self.files.len() - i,
        {
            if self.files[i].0 == name {
                let ghost before = self.files@;
                proof {
                    lemma_file_index_at(before, i as int);
                }
                let entry = self.files.remove(i);
                let removed = self.sources.remove(&entry.1);
                proof {
                    let after = self.files@;
                    assert(distinct_names(after)) by {
                        assert forall|a: int, b: int|
                            0 <= a < after.len() && 0 <= b < after.len() && a != b implies after[a].0@
                            != after[b].0@ by {
                            let a0 = if a < i { a } else { a + 1 };
                            let b0 = if b < i { b } else { b + 1 };
                            assert(after[a] == before[a0]);
                            assert(after[b] == before[b0]);
                        }
                    }
                    assert forall|key: Seq<char>|
                        file_index(after).contains_key(key) == file_index(before).remove(
                            name@,
                        ).contains_key(key) by {
                        if file_index(after).contains_key(key) {
                            let k = choose|k: int| 0 <= k < after.len() && after[k].0@ == key;
                            let k0 = if k < i { k } else { k + 1 };
                            assert(before[k0].0@ == key);
                        }
                        if file_index(before).remove(name@).contains_key(key) {
                            let k = choose|k: int| 0 <= k < before.len() && before[k].0@ == key;
                            let k1 = if k < i { k } else { k - 1 };
                            assert(after[k1].0@ == key);
                        }
                    }
                    assert forall|key: Seq<char>| file_index(after).contains_key(key) implies (
                    #[trigger] file_index(after)[key]) == file_index(before).remove(name@)[key] by {
                        let k = choose|k: int| 0 <= k < after.len() && after[k].0@ == key;
                        let k0 = if k < i { k } else { k + 1 };
                        assert(after[k] == before[k0]);
                        lemma_file_index_at(after, k);
                        lemma_file_index_at(before, k0);
                    }
                    assert(file_index(after) =~= file_index(before).remove(name@));
                    assert(self.sources() =~= old(self).sources().remove(entry.1));
                }
                return removed;
            }
            i += 1;
        }
        proof {
            assert(!file_index(self.files@).contains_key(name@));
            assert(file_index(self.files@) =~= file_index(self.files@).remove(name@));
        }
        None
    }
}

} // verus!
