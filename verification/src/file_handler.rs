//! The processing batch: which scanned files are candidates, what is recorded
//! for each of them, and which files leave the directory after delivery.

use crate::extractor::{document_amount, extract_invoice};
use crate::hash_calculator::{is_hex_digest, ContentHash, HashCalculator};
use crate::processing_result::{texts, ProcessingResult};
use vstd::prelude::*;
use vstd::string::*;

verus! {

/// One directory entry as the scan found it, with what could be obtained from it.
pub struct ScannedFile {
    /// The entry's name inside the watched directory.
    pub name: String,
    /// Whether the entry is a regular file.
    pub is_file: bool,
    /// The content hash; `None` where the file could not be read while hashing.
    pub hash: Option<ContentHash>,
    /// The file's content as text; `None` where the file could not be read
    /// as text.
    pub content: Option<String>,
}

/// The file name ending that marks a candidate.
pub open spec fn xml_suffix() -> Seq<char> {
    seq!['.', 'x', 'm', 'l']
}

/// Whether a name ends in `.xml`.
pub open spec fn has_xml_suffix(name: Seq<char>) -> bool {
    name.len() >= 4 && name.subrange(name.len() - 4, name.len() as int) == xml_suffix()
}

/// Whether a directory entry is a candidate: a regular file whose name ends in `.xml`.
pub open spec fn is_candidate_entry(name: Seq<char>, is_file: bool) -> bool {
    is_file && has_xml_suffix(name)
}

/// Whether a scanned file enters the result: it is a candidate, its hash was
/// obtained, and its content is a document with a total amount.
pub open spec fn qualifies(file: ScannedFile) -> bool {
    &&& is_candidate_entry(file.name@, file.is_file)
    &&& file.hash is Some
    &&& file.content is Some
    &&& document_amount(file.content->0@) is Ok
}

/// The text recorded for a file: the hash, a vertical bar, the amount.
pub open spec fn wire_value(hash: Seq<char>, amount: Seq<char>) -> Seq<char> {
    hash + seq!['|'] + amount
}

/// Whether a text is 64 lowercase hexadecimal characters, a vertical bar, and
/// anything after it.
pub open spec fn is_wire_value(value: Seq<char>) -> bool {
    value.len() >= 65 && is_hex_digest(value.take(64)) && value[64] == '|'
}

/// The text recorded for a file that qualifies.
pub open spec fn file_value(file: ScannedFile) -> Seq<char> {
    wire_value(file.hash->0@, document_amount(file.content->0@)->Ok_0)
}

/// The result of a batch over the scanned files, taken in order: each file
/// that qualifies is recorded under its name.
pub open spec fn batch_result(files: Seq<ScannedFile>) -> Map<Seq<char>, Seq<char>>
    decreases files.len(),
{
    if files.len() == 0 {
        Map::empty()
    } else {
        let earlier = batch_result(files.drop_last());
        if qualifies(files.last()) {
            earlier.insert(files.last().name@, file_value(files.last()))
        } else {
            earlier
        }
    }
}

/// The predicate "is one of these names".
pub open spec fn listed_in(names: Set<Seq<char>>) -> spec_fn(Seq<char>) -> bool {
    |name: Seq<char>| names.contains(name)
}

/// The predicate "is none of these names".
pub open spec fn not_listed_in(names: Set<Seq<char>>) -> spec_fn(Seq<char>) -> bool {
    |name: Seq<char>| !names.contains(name)
}

/// The files to remove after a delivery: those present in the directory whose
/// names were delivered, in directory order.
pub open spec fn names_to_remove(present: Seq<Seq<char>>, delivered: Set<Seq<char>>) -> Seq<
    Seq<char>,
> {
    present.filter(listed_in(delivered))
}

/// The directory after the named files have been removed from it.
pub open spec fn names_left(present: Seq<Seq<char>>, removed: Seq<Seq<char>>) -> Seq<Seq<char>> {
    present.filter(not_listed_in(removed.to_set()))
}

/// A hash followed by a bar and an amount has the recorded shape, and both
/// parts can be read back from it unchanged.
pub proof fn lemma_wire_value_shape(hash: Seq<char>, amount: Seq<char>)
    requires
        is_hex_digest(hash),
    ensures
        is_wire_value(wire_value(hash, amount)),
        wire_value(hash, amount).take(64) == hash,
        wire_value(hash, amount).skip(65) == amount,
{
    let value = wire_value(hash, amount);
    assert(value.take(64) =~= hash);
    assert(value.skip(65) =~= amount);
}

/// The names in a batch result are the names of the files that qualify.
pub proof fn lemma_batch_result_keys(files: Seq<ScannedFile>)
    ensures
        forall|name: Seq<char>|
            batch_result(files).contains_key(name) <==> exists|i: int|
                0 <= i < files.len() && qualifies(#[trigger] files[i]) && files[i].name@ == name,
    decreases files.len(),
{
    if files.len() > 0 {
        let shorter = files.drop_last();
        let last = files.last();
        let n = files.len() - 1;
        lemma_batch_result_keys(shorter);
        assert forall|name: Seq<char>|
            batch_result(files).contains_key(name) <==> exists|i: int|
                0 <= i < files.len() && qualifies(#[trigger] files[i]) && files[i].name@
                    == name by {
            if batch_result(files).contains_key(name) {
                if qualifies(last) && last.name@ == name {
                    assert(qualifies(files[n]) && files[n].name@ == name);
                } else {
                    assert(batch_result(shorter).contains_key(name));
                    let i = choose|i: int|
                        0 <= i < shorter.len() && qualifies(#[trigger] shorter[i])
                            && shorter[i].name@ == name;
                    assert(qualifies(files[i]) && files[i].name@ == name);
                }
            }
            if exists|i: int|
                0 <= i < files.len() && qualifies(#[trigger] files[i]) && files[i].name@ == name {
                let i = choose|i: int|
                    0 <= i < files.len() && qualifies(#[trigger] files[i]) && files[i].name@
                        == name;
                if i < n {
                    assert(qualifies(shorter[i]) && shorter[i].name@ == name);
                    assert(batch_result(shorter).contains_key(name));
                } else {
                    assert(files[i] == last);
                }
            }
        }
    }
}

/// A file that qualifies is recorded with its own hash and amount, unless a
/// later file of the same name qualifies too.
pub proof fn lemma_batch_result_value(files: Seq<ScannedFile>, i: int)
    requires
        0 <= i < files.len(),
        qualifies(files[i]),
        forall|j: int|
            i < j < files.len() && qualifies(#[trigger] files[j]) ==> files[j].name@
                != files[i].name@,
    ensures
        batch_result(files).contains_key(files[i].name@),
        batch_result(files)[files[i].name@] == file_value(files[i]),
    decreases files.len(),
{
    let shorter = files.drop_last();
    if i < files.len() - 1 {
        assert(shorter[i] == files[i]);
        assert forall|j: int| i < j < shorter.len() && qualifies(#[trigger] shorter[j]) implies
            shorter[j].name@ != shorter[i].name@ by {
            assert(shorter[j] == files[j]);
        }
        lemma_batch_result_value(shorter, i);
        assert(qualifies(files[files.len() - 1]) ==> files[files.len() - 1].name@
            != files[i].name@);
    }
}

/// Every regular file whose name ends in `.xml`, whose content is a document
/// with a total amount and could be hashed, has an entry under its name, and
/// the entry is the 64 hexadecimal characters of its hash, a vertical bar, and
/// the total amount as it stands in the document.
pub proof fn lemma_extracted_files_are_recorded(files: Seq<ScannedFile>, i: int)
    requires
        0 <= i < files.len(),
        forall|j: int, k: int| 0 <= j < k < files.len() ==> files[j].name@ != files[k].name@,
        files[i].is_file,
        has_xml_suffix(files[i].name@),
        files[i].content is Some,
        document_amount(files[i].content->0@) is Ok,
        files[i].hash is Some,
        files[i].hash->0.well_formed(),
    ensures
        batch_result(files).contains_key(files[i].name@),
        batch_result(files)[files[i].name@] == files[i].hash->0@ + seq!['|'] + document_amount(
            files[i].content->0@,
        )->Ok_0,
        is_wire_value(batch_result(files)[files[i].name@]),
        batch_result(files)[files[i].name@].take(64) == files[i].hash->0@,
        batch_result(files)[files[i].name@].skip(65) == document_amount(
            files[i].content->0@,
        )->Ok_0,
{
    lemma_batch_result_value(files, i);
    files[i].hash->0.lemma_well_formed_is_digest();
    lemma_wire_value_shape(files[i].hash->0@, document_amount(files[i].content->0@)->Ok_0);
}

/// A name under which every scanned file failed extraction, because its
/// document is not well-formed or has no usable `totalAmount`, is not a key of
/// the batch result, and no such file is ever among the files to remove after
/// that result was delivered.
pub proof fn lemma_failed_files_are_left_alone(
    files: Seq<ScannedFile>,
    present: Seq<Seq<char>>,
    name: Seq<char>,
)
    requires
        forall|i: int|
            0 <= i < files.len() && (#[trigger] files[i]).name@ == name ==> files[i].content is None
                || document_amount(files[i].content->0@) is Err,
    ensures
        !batch_result(files).contains_key(name),
        !names_to_remove(present, batch_result(files).dom()).contains(name),
{
    lemma_batch_result_keys(files);
    lemma_removed_names(present, batch_result(files).dom(), name);
}

/// A name is among the files to remove exactly if it is present in the
/// directory and was delivered.
pub proof fn lemma_removed_names(
    present: Seq<Seq<char>>,
    delivered: Set<Seq<char>>,
    name: Seq<char>,
)
    ensures
        names_to_remove(present, delivered).contains(name) <==> present.contains(name)
            && delivered.contains(name),
{
    let keep = listed_in(delivered);
    let removed = present.filter(keep);
    if removed.contains(name) {
        let k = choose|k: int| 0 <= k < removed.len() && removed[k] == name;
        present.lemma_filter_pred(keep, k);
        present.lemma_filter_contains_rev(keep, name);
    }
    if present.contains(name) && delivered.contains(name) {
        let k = choose|k: int| 0 <= k < present.len() && present[k] == name;
        present.lemma_filter_contains(keep, k);
    }
}

/// A name is left in the directory exactly if it was present and is not among
/// the removed files.
pub proof fn lemma_left_names(present: Seq<Seq<char>>, removed: Seq<Seq<char>>, name: Seq<char>)
    ensures
        names_left(present, removed).contains(name) <==> present.contains(name)
            && !removed.contains(name),
{
    let keep = not_listed_in(removed.to_set());
    let left = present.filter(keep);
    if left.contains(name) {
        let k = choose|k: int| 0 <= k < left.len() && left[k] == name;
        present.lemma_filter_pred(keep, k);
        present.lemma_filter_contains_rev(keep, name);
    }
    if present.contains(name) && !removed.contains(name) {
        let k = choose|k: int| 0 <= k < present.len() && present[k] == name;
        present.lemma_filter_contains(keep, k);
    }
}

/// After the files to remove have left the directory, no delivered name is
/// in it any more, and every other file that was there still is.
pub proof fn lemma_delivery_removes_exactly_the_keys(
    present: Seq<Seq<char>>,
    delivered: Set<Seq<char>>,
    name: Seq<char>,
)
    ensures
        ({
            let after = names_left(present, names_to_remove(present, delivered));
            &&& delivered.contains(name) ==> !after.contains(name)
            &&& !delivered.contains(name) ==> (after.contains(name) <==> present.contains(name))
        }),
{
    lemma_removed_names(present, delivered, name);
    lemma_left_names(present, names_to_remove(present, delivered), name);
}

/// Removing the delivered files a second time finds nothing to remove and
/// leaves the directory as the first removal left it.
pub proof fn lemma_deleting_twice_changes_nothing(
    present: Seq<Seq<char>>,
    delivered: Set<Seq<char>>,
)
    ensures
        ({
            let after = names_left(present, names_to_remove(present, delivered));
            &&& names_to_remove(after, delivered) == Seq::<Seq<char>>::empty()
            &&& names_left(after, names_to_remove(after, delivered)) == after
        }),
{
    let after = names_left(present, names_to_remove(present, delivered));
    assert forall|i: int| 0 <= i < after.len() implies !listed_in(delivered)(
        #[trigger] after[i],
    ) by {
        assert(after.contains(after[i]));
        lemma_left_names(present, names_to_remove(present, delivered), after[i]);
        lemma_removed_names(present, delivered, after[i]);
    }
    after.lemma_all_neg_filter_empty(listed_in(delivered));
    let nothing = Seq::<Seq<char>>::empty();
    assert(names_to_remove(after, delivered) == nothing);
    assert forall|i: int| 0 <= i < after.len() implies not_listed_in(nothing.to_set())(
        #[trigger] after[i],
    ) by {}
    lemma_filter_keeps_all(after, not_listed_in(nothing.to_set()));
}

/// A filter that every element passes keeps the sequence as it is.
proof fn lemma_filter_keeps_all(names: Seq<Seq<char>>, keep: spec_fn(Seq<char>) -> bool)
    requires
        forall|i: int| 0 <= i < names.len() ==> keep(#[trigger] names[i]),
    ensures
        names.filter(keep) == names,
    decreases names.len(),
{
    reveal(Seq::filter);
    if names.len() > 0 {
        let shorter = names.drop_last();
        assert forall|i: int| 0 <= i < shorter.len() implies keep(#[trigger] shorter[i]) by {
            assert(shorter[i] == names[i]);
        }
        lemma_filter_keeps_all(shorter, keep);
        assert(shorter.push(names.last()) =~= names);
    }
}

/// Whether one of the names is the wanted one.
fn is_listed(names: &[String], wanted: &String) -> (found: bool)
    ensures
        found == texts(names@).contains(wanted@),
{
    let mut i: usize = 0;
    while i < names.len()
        invariant
            i <= names.len(),
            forall|k: int| 0 <= k < i ==> (#[trigger] texts(names@)[k]) != wanted@,
        decreases names.len() - i,
    {
        if names[i] == *wanted {
            assert(texts(names@)[i as int] == wanted@);
            return true;
        }
        i += 1;
    }
    false
}

/// The text recorded for a file with this hash and this amount.
fn compose_value(hash: &ContentHash, amount: &String) -> (value: String)
    ensures
        value@ == wire_value(hash@, amount@),
        is_wire_value(value@),
{
    proof {
        reveal_strlit("|");
    }
    let mut value = String::from_str(hash.as_str());
    value.append("|");
    value.append(amount.as_str());
    proof {
        assert("|"@ =~= seq!['|']);
        lemma_wire_value_shape(hash@, amount@);
    }
    value
}

/// Runs processing batches over one watched directory.
pub struct FileHandler {
    directory: String,
    hash_calculator: HashCalculator,
}

impl FileHandler {
    /// The path of the watched directory.
    pub closed spec fn directory_text(&self) -> Seq<char> {
        self.directory@
    }

    /// A handler for the watched directory at this path.
    pub fn new(directory: String) -> (handler: Self)
        ensures
            handler.directory_text() == directory@,
    {
        FileHandler { directory, hash_calculator: HashCalculator::new() }
    }

    /// The path of the watched directory.
    pub fn directory(&self) -> (path: &str)
        ensures
            path@ == self.directory_text(),
    {
        self.directory.as_str()
    }

    /// The calculator with which the files of this directory are hashed.
    pub fn hash_calculator(&self) -> (calculator: &HashCalculator) {
        &self.hash_calculator
    }

    /// Whether a directory entry is a candidate for processing: a regular file
    /// whose name ends in `.xml`.
    pub fn is_candidate(&self, name: &str, is_file: bool) -> (candidate: bool)
        ensures
            candidate == is_candidate_entry(name@, is_file),
    {
        if !is_file {
            return false;
        }
        let length = name.unicode_len();
        if length < 4 {
            return false;
        }
        let matches = name.get_char(length - 4) == '.' && name.get_char(length - 3) == 'x'
            && name.get_char(length - 2) == 'm' && name.get_char(length - 1) == 'l';
        proof {
            let ending = name@.subrange(name@.len() - 4, name@.len() as int);
            assert(ending[0] == name@[length - 4]);
            assert(ending[1] == name@[length - 3]);
            assert(ending[2] == name@[length - 2]);
            assert(ending[3] == name@[length - 1]);
            if matches {
                assert(ending =~= xml_suffix());
            }
        }
        matches
    }

    /// Runs one batch over the scanned entries: every candidate whose hash was
    /// obtained and whose content is a document with a total amount is
    /// recorded under its name as `hash|amount`; every other entry is left out.
    pub fn process_files(&self, files: &Vec<ScannedFile>) -> (result: ProcessingResult)
        ensures
            result@ == batch_result(files@),
            forall|name: Seq<char>|
                result@.contains_key(name) <==> exists|i: int|
                    0 <= i < files@.len() && qualifies(#[trigger] files@[i]) && files@[i].name@
                        == name,
            forall|name: Seq<char>| #[trigger]
                result@.contains_key(name) ==> is_wire_value(result@[name]),
    {
        let mut result = ProcessingResult::new();
        let mut i: usize = 0;
        while i < files.len()
            invariant
                i <= files.len(),
                result@ == batch_result(files@.take(i as int)),
                forall|name: Seq<char>| #[trigger]
                    result@.contains_key(name) ==> is_wire_value(result@[name]),
            decreases files.len() - i,
        {
            let file = &files[i];
            proof {
                let longer = files@.take(i as int + 1);
                assert(longer.drop_last() =~= files@.take(i as int));
                assert(longer.last() == files@[i as int]);
            }
            if self.is_candidate(file.name.as_str(), file.is_file) {
                match (&file.hash, &file.content) {
                    (Some(hash), Some(content)) => {
                        match extract_invoice(content.as_str()) {
                            Ok(invoice) => {
                                let value = compose_value(hash, &invoice.total_amount);
                                result.insert(file.name.clone(), value);
                            },
                            Err(_) => {},
                        }
                    },
                    _ => {},
                }
            }
            i += 1;
        }
        proof {
            assert(files@.take(i as int) =~= files@);
            lemma_batch_result_keys(files@);
        }
        result
    }

    /// Decides which files leave the directory after a result was delivered:
    /// those of the files present whose names are among the delivered ones.
    /// A delivered name that is no longer present is passed over.
    pub fn delete_processed_files(&self, file_names: &[String], present: &[String]) -> (removed:
        Vec<String>)
        ensures
            texts(removed@) == names_to_remove(texts(present@), texts(file_names@).to_set()),
    {
        let ghost keep = listed_in(texts(file_names@).to_set());
        let mut removed: Vec<String> = Vec::new();
        let mut i: usize = 0;
        proof {
            assert(texts(present@).take(0) =~= Seq::<Seq<char>>::empty());
            Seq::<Seq<char>>::empty().lemma_filter_len(keep);
            assert(texts(removed@) =~= Seq::<Seq<char>>::empty().filter(keep));
        }
        while i < present.len()
            invariant
                i <= present.len(),
                keep == listed_in(texts(file_names@).to_set()),
                texts(removed@) == texts(present@).take(i as int).filter(keep),
            decreases present.len() - i,
        {
            let listed = is_listed(file_names, &present[i]);
            proof {
                let all = texts(present@);
                assert(all.take(i as int + 1) =~= all.take(i as int).push(all[i as int]));
                all.take(i as int).lemma_filter_push(all[i as int], keep);
                assert(all[i as int] == present@[i as int]@);
            }
            if listed {
                let name = present[i].clone();
                proof {
                    assert(texts(removed@.push(name)) =~= texts(removed@).push(name@));
                }
                removed.push(name);
            }
            i += 1;
        }
        proof {
            assert(texts(present@).take(i as int) =~= texts(present@));
        }
        removed
    }
}

} // verus!
