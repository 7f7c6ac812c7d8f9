//! The outcome of one processing batch: a mapping from file name to the
//! text that is sent for that file.

use vstd::prelude::*;
use vstd::string::*;

verus! {

/// The texts of a sequence of strings.
pub open spec fn texts(strings: Seq<String>) -> Seq<Seq<char>> {
    strings.map_values(|s: String| s@)
}

/// The entries of a sequence of name-value pairs, as texts.
spec fn pair_texts(pairs: Seq<(String, String)>) -> Seq<(Seq<char>, Seq<char>)> {
    pairs.map_values(|p: (String, String)| (p.0@, p.1@))
}

/// The names of a sequence of entries, in order.
spec fn entry_names(entries: Seq<(Seq<char>, Seq<char>)>) -> Seq<Seq<char>> {
    entries.map_values(|e: (Seq<char>, Seq<char>)| e.0)
}

/// What `serde_json` makes of a mapping with text keys and text values: the
/// pretty-printed JSON object with one member per key, in the order of the
/// keys, each value as a JSON string; or `None` where it reports an error.
pub uninterp spec fn json_pretty(members: Map<Seq<char>, Seq<char>>) -> Option<Seq<char>>;

/// The error type of `serde_json`.
#[verifier::external_type_specification]
#[verifier::external_body]
pub struct ExJsonError(serde_json::Error);

/// `serde_json::to_string_pretty` on the entries, gathered in a `BTreeMap`, which
/// the serializer walks in the order of its keys. Whether it gives a text or
/// an error, and which text, depends on the mapping alone.
#[verifier::external_body]
fn json_object_text(entries: &Vec<(String, String)>) -> (text: Result<String, serde_json::Error>)
    requires
        entry_names(pair_texts(entries@)).no_duplicates(),
    ensures
        match text {
            Ok(t) => json_pretty(entries_map(pair_texts(entries@))) == Some(t@),
            Err(_) => json_pretty(entries_map(pair_texts(entries@))) is None,
        },
{
    let object: std::collections::BTreeMap<&str, &str> = entries
        .iter()
        .map(|e| (e.0.as_str(), e.1.as_str()))
        .collect();
    serde_json::to_string_pretty(&object)
}

/// The mapping that a sequence of entries with distinct names stands for.
spec fn entries_map(entries: Seq<(Seq<char>, Seq<char>)>) -> Map<Seq<char>, Seq<char>> {
    Map::new(
        |name: Seq<char>| entry_names(entries).contains(name),
        |name: Seq<char>| entries[entry_names(entries).index_of(name)].1,
    )
}

/// An entry is found under its own name.
proof fn lemma_entry_lookup(entries: Seq<(Seq<char>, Seq<char>)>, i: int)
    requires
        entry_names(entries).no_duplicates(),
        0 <= i < entries.len(),
    ensures
        entries_map(entries).contains_key(entries[i].0),
        entries_map(entries)[entries[i].0] == entries[i].1,
{
    let names = entry_names(entries);
    assert(names[i] == entries[i].0);
    let k = names.index_of(entries[i].0);
    assert(0 <= k < names.len() && names[k] == entries[i].0);
    assert(k == i);
}

/// Adding an entry under a new name inserts it into the mapping.
proof fn lemma_push_inserts(
    entries: Seq<(Seq<char>, Seq<char>)>,
    name: Seq<char>,
    value: Seq<char>,
)
    requires
        entry_names(entries).no_duplicates(),
        !entry_names(entries).contains(name),
    ensures
        entry_names(entries.push((name, value))).no_duplicates(),
        entries_map(entries.push((name, value))) == entries_map(entries).insert(name, value),
{
    let longer = entries.push((name, value));
    let names = entry_names(entries);
    let longer_names = entry_names(longer);
    assert(longer_names =~= names.push(name));
    assert forall|i: int, j: int|
        0 <= i < longer_names.len() && 0 <= j < longer_names.len() && i != j implies longer_names[i]
        != longer_names[j] by {
        if i < names.len() {
            assert(names[i] == longer_names[i]);
            assert(names.contains(names[i]));
        }
        if j < names.len() {
            assert(names[j] == longer_names[j]);
            assert(names.contains(names[j]));
        }
    }
    let expected = entries_map(entries).insert(name, value);
    assert forall|n: Seq<char>| entries_map(longer).contains_key(n) == expected.contains_key(
        n,
    ) by {
        if longer_names.contains(n) {
            let k = longer_names.index_of(n);
            if k < names.len() {
                assert(names[k] == n);
            }
        }
        if names.contains(n) {
            let k = names.index_of(n);
            assert(longer_names[k] == n);
        }
        if n == name {
            assert(longer_names[names.len() as int] == n);
        }
    }
    assert forall|n: Seq<char>| entries_map(longer).contains_key(n) implies entries_map(longer)[n]
        == expected[n] by {
        let k = longer_names.index_of(n);
        lemma_entry_lookup(longer, k);
        if k < names.len() {
            assert(names[k] == n);
            lemma_entry_lookup(entries, k);
        }
    }
    assert(entries_map(longer) =~= expected);
}

/// Replacing the value of an entry inserts the new value under the same name.
proof fn lemma_update_inserts(
    entries: Seq<(Seq<char>, Seq<char>)>,
    i: int,
    name: Seq<char>,
    value: Seq<char>,
)
    requires
        entry_names(entries).no_duplicates(),
        0 <= i < entries.len(),
        entries[i].0 == name,
    ensures
        entry_names(entries.update(i, (name, value))) == entry_names(entries),
        entries_map(entries.update(i, (name, value))) == entries_map(entries).insert(name, value),
{
    let changed = entries.update(i, (name, value));
    let names = entry_names(entries);
    assert(entry_names(changed) =~= names);
    let expected = entries_map(entries).insert(name, value);
    assert(names[i] == name);
    assert forall|n: Seq<char>| entries_map(changed).contains_key(n) implies entries_map(
        changed,
    )[n] == expected[n] by {
        let k = names.index_of(n);
        lemma_entry_lookup(changed, k);
        lemma_entry_lookup(entries, k);
    }
    assert(entries_map(changed) =~= expected);
}

/// The result of one processing batch. Each file name occurs at most once.
pub struct ProcessingResult {
    entries: Vec<(String, String)>,
}

impl View for ProcessingResult {
    type V = Map<Seq<char>, Seq<char>>;

    closed spec fn view(&self) -> Map<Seq<char>, Seq<char>> {
        entries_map(self.entries())
    }
}

impl ProcessingResult {
    /// The entries in the order in which their names were first recorded.
    closed spec fn entries(&self) -> Seq<(Seq<char>, Seq<char>)> {
        pair_texts(self.entries@)
    }

    /// No name occurs twice.
    #[verifier::type_invariant]
    pub closed spec fn well_formed(self) -> bool {
        entry_names(pair_texts(self.entries@)).no_duplicates()
    }

    /// What the entries have to do with the mapping: the names are distinct,
    /// and they are the keys.
    proof fn lemma_entries_are_the_mapping(self)
        requires
            self.well_formed(),
        ensures
            entry_names(self.entries()).no_duplicates(),
            self@ == entries_map(self.entries()),
            self@.dom() == entry_names(self.entries()).to_set(),
            self@.dom().finite(),
            self@.dom().len() == self.entries().len(),
    {
        let names = entry_names(self.entries());
        assert(self@.dom() =~= names.to_set());
        names.unique_seq_to_set();
    }

    /// A result without entries.
    pub fn new() -> (result: Self)
        ensures
            result@ == Map::<Seq<char>, Seq<char>>::empty(),
    {
        let result = ProcessingResult { entries: Vec::new() };
        assert(result.entries() =~= Seq::<(Seq<char>, Seq<char>)>::empty());
        assert(result@ =~= Map::<Seq<char>, Seq<char>>::empty());
        result
    }

    /// Records a value under a name, in place of an earlier value for that name.
    pub fn insert(&mut self, name: String, value: String)
        ensures
            final(self)@ == old(self)@.insert(name@, value@),
    {
        proof {
            use_type_invariant(&*self);
        }
        let ghost before = self.entries();
        let mut i: usize = 0;
        while i < self.entries.len()
            invariant
                i <= self.entries.len(),
                *self == *old(self),
                before == self.entries(),
                entry_names(before).no_duplicates(),
                forall|k: int| 0 <= k < i ==> (#[trigger] before[k]).0 != name@,
            ensures
                i <= self.entries.len(),
                i < self.entries.len() ==> before[i as int].0 == name@,
            decreases self.entries.len() - i,
        {
            if self.entries[i].0 == name {
                break ;
            }
            i += 1;
        }
        let mut entries: Vec<(String, String)> = Vec::new();
        proof {
            assert(entry_names(pair_texts(entries@)) =~= Seq::<Seq<char>>::empty());
        }
        core::mem::swap(&mut self.entries, &mut entries);
        if i < entries.len() {
            proof {
                lemma_update_inserts(before, i as int, name@, value@);
                assert(pair_texts(entries@.update(i as int, (name, value))) =~= before.update(
                    i as int,
                    (name@, value@),
                ));
            }
            entries.set(i, (name, value));
        } else {
            proof {
                assert(!entry_names(before).contains(name@)) by {
                    if entry_names(before).contains(name@) {
                        let k = entry_names(before).index_of(name@);
                        assert(before[k].0 == name@);
                    }
                }
                lemma_push_inserts(before, name@, value@);
                assert(pair_texts(entries@.push((name, value))) =~= before.push((name@, value@)));
            }
            entries.push((name, value));
        }
        self.entries = entries;
    }

    /// The number of files in the result.
    pub fn len(&self) -> (count: usize)
        ensures
            self@.dom().finite(),
            count == self@.dom().len(),
    {
        proof {
            use_type_invariant(self);
            self.lemma_entries_are_the_mapping();
        }
        self.entries.len()
    }

    /// The position of a name among the entries, if it is there.
    fn position(&self, name: &String) -> (found: Option<usize>)
        ensures
            match found {
                Some(i) => i < self.entries().len() && self.entries()[i as int].0 == name@
                    && self.entries@[i as int].1@ == self@[name@] && self@.contains_key(name@),
                None => !self@.contains_key(name@),
            },
    {
        proof {
            use_type_invariant(self);
        }
        let mut i: usize = 0;
        while i < self.entries.len()
            invariant
                i <= self.entries.len(),
                entry_names(self.entries()).no_duplicates(),
                forall|k: int| 0 <= k < i ==> (#[trigger] self.entries()[k]).0 != name@,
            decreases self.entries.len() - i,
        {
            if self.entries[i].0 == *name {
                proof {
                    lemma_entry_lookup(self.entries(), i as int);
                }
                return Some(i);
            }
            i += 1;
        }
        proof {
            let names = entry_names(self.entries());
            if names.contains(name@) {
                let k = names.index_of(name@);
                assert(self.entries()[k].0 == name@);
            }
        }
        None
    }

    /// Whether the result has an entry for a file name.
    pub fn contains_key(&self, name: &str) -> (present: bool)
        ensures
            present == self@.contains_key(name@),
    {
        let wanted = String::from_str(name);
        self.position(&wanted).is_some()
    }

    /// The value recorded for a file name.
    pub fn get(&self, name: &str) -> (value: Option<String>)
        ensures
            value is Some <==> self@.contains_key(name@),
            value matches Some(v) ==> v@ == self@[name@],
    {
        let wanted = String::from_str(name);
        match self.position(&wanted) {
            Some(i) => Some(self.entries[i].1.clone()),
            None => None,
        }
    }

    /// The file names of the result, each once.
    pub fn keys(&self) -> (names: Vec<String>)
        ensures
            texts(names@).no_duplicates(),
            texts(names@).to_set() == self@.dom(),
            names@.len() == self@.dom().len(),
    {
        proof {
            use_type_invariant(self);
            self.lemma_entries_are_the_mapping();
        }
        let mut names: Vec<String> = Vec::new();
        let mut i: usize = 0;
        while i < self.entries.len()
            invariant
                i <= self.entries.len(),
                texts(names@) == entry_names(self.entries()).take(i as int),
            decreases self.entries.len() - i,
        {
            let name = self.entries[i].0.clone();
            proof {
                let all = entry_names(self.entries());
                assert(all[i as int] == self.entries()[i as int].0);
                assert(texts(names@.push(name)) =~= texts(names@).push(name@));
                assert(all.take(i as int + 1) =~= all.take(i as int).push(name@));
            }
            names.push(name);
            i += 1;
        }
        proof {
            assert(entry_names(self.entries()).take(i as int) =~= entry_names(self.entries()));
        }
        names
    }

    /// The result as a pretty-printed JSON object: the text that the
    /// serializer gives for the mapping, and `None` exactly where it gives none.
    pub fn to_json(&self) -> (json: Option<String>)
        ensures
            match json {
                Some(text) => json_pretty(self@) == Some(text@),
                None => json_pretty(self@) is None,
            },
    {
        proof {
            use_type_invariant(self);
        }
        match json_object_text(&self.entries) {
            Ok(text) => Some(text),
            Err(_) => None,
        }
    }
}

} // verus!
