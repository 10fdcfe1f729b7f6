//! The archive boundary and the remapping session.
//!
//! Reading the zip container is delegated to the `zip` crate through a few
//! trusted items over in-memory buffers; everything decided about the
//! entries — which tabular streams feed which mapping, which entries are
//! rewritten, where each output goes — is verified here against those
//! items' contracts.

use vstd::prelude::*;
use std::io::Read;
use crate::mapping::{Mapping, MappingSet, MappingSetView, table_map};
use crate::walker::{OutputItem, outputs_view, plan_spec, plan_outputs};
use crate::bytes::bytes_eq;

verus! {

#[verifier::external_type_specification]
#[verifier::external_body]
#[verifier::reject_recursive_types(T)]
pub struct ExCursor<T>(std::io::Cursor<T>);

#[verifier::external_type_specification]
#[verifier::external_body]
#[verifier::reject_recursive_types(R)]
pub struct ExZipArchive<R>(zip::read::ZipArchive<R>);

/// The entries a zip archive value holds: for each entry its name bytes
/// (as the reader decodes them) and its decompressed content bytes, in
/// central-directory order of distinct names (the reader indexes entries
/// by name, so a later record with an already-seen name replaces that
/// name's data while keeping its position).
pub uninterp spec fn archive_entries(a: zip::read::ZipArchive<std::io::Cursor<Vec<u8>>>) -> Seq<
    (Seq<u8>, Seq<u8>),
>;

/// What parsing a byte buffer as a zip archive yields: `None` when the
/// bytes are not a readable archive, otherwise the entries they describe.
/// Parsing an in-memory buffer depends on the bytes alone.
pub uninterp spec fn zip_parse(bytes: Seq<u8>) -> Option<Seq<(Seq<u8>, Seq<u8>)>>;

/// Whether reading the content of the entry at index `i` of this archive
/// value succeeds. Reading an entry of an in-memory archive decides by
/// the entry's metadata and the buffer alone, so this is a function of
/// the archive value and the index.
pub uninterp spec fn archive_entry_readable(
    a: zip::read::ZipArchive<std::io::Cursor<Vec<u8>>>,
    i: int,
) -> bool;

/// The same readability, as a function of the bytes the archive was
/// parsed from: `open_archive` ties the two names together, so public
/// contracts can speak of readability without naming the archive value.
pub uninterp spec fn entry_readable(bytes: Seq<u8>, i: int) -> bool;

/// Relies on zip::ZipArchive::new over an in-memory cursor: it parses the
/// central directory of the buffer, a function of the bytes alone, and
/// fails exactly when the buffer is not a readable archive.
#[verifier::external_body]
fn open_archive(bytes: Vec<u8>) -> (r: Option<zip::read::ZipArchive<std::io::Cursor<Vec<u8>>>>)
    ensures
        match r {
            Some(a) => zip_parse(bytes@) == Some(archive_entries(a)) && (forall|i: int|
                #[trigger] archive_entry_readable(a, i) == entry_readable(bytes@, i)),
            None => zip_parse(bytes@) is None,
        },
{
    zip::read::ZipArchive::new(std::io::Cursor::new(bytes)).ok()
}

/// Relies on zip::ZipArchive::len: the number of entries in the archive.
#[verifier::external_body]
fn archive_len(a: &zip::read::ZipArchive<std::io::Cursor<Vec<u8>>>) -> (r: usize)
    ensures
        r == archive_entries(*a).len(),
{
    a.len()
}

/// Relies on zip::ZipArchive::by_index and std::io::Read::read_to_end: the
/// entry at the index is returned as its name bytes and its fully
/// decompressed content; which entries can be read, and what they hold,
/// is a function of the archive value, and reading moves only the
/// underlying cursor, leaving both unchanged.
#[verifier::external_body]
fn read_entry(a: &mut zip::read::ZipArchive<std::io::Cursor<Vec<u8>>>, i: usize) -> (r: Option<
    (Vec<u8>, Vec<u8>),
>)
    requires
        i < archive_entries(*old(a)).len(),
    ensures
        archive_entries(*final(a)) == archive_entries(*old(a)),
        forall|j: int|
            #[trigger] archive_entry_readable(*final(a), j) == archive_entry_readable(*old(a), j),
        r is Some <==> archive_entry_readable(*old(a), i as int),
        match r {
            Some(p) => p.0@ == archive_entries(*old(a))[i as int].0 && p.1@ == archive_entries(
                *old(a),
            )[i as int].1,
            None => true,
        },
{
    let mut f = match a.by_index(i) {
        Ok(f) => f,
        Err(_) => {
            return None;
        },
    };
    let name = f.name().as_bytes().to_vec();
    let mut content = Vec::new();
    match f.read_to_end(&mut content) {
        Ok(_) => Some((name, content)),
        Err(_) => None,
    }
}

/// What can go wrong fatally: the mappings container or the target archive
/// cannot be opened or read.
#[derive(Clone, Copy, Debug, PartialEq, Eq, Structural)]
pub enum RemapError {
    /// The mappings archive cannot be opened or parsed.
    MappingLoad,
    /// The target archive cannot be opened.
    ArchiveOpen,
}

/// The index of the first entry with the given name, scanning from
/// `from`; -1 when no entry at or after `from` has the name.
pub open spec fn find_entry_index_from(
    entries: Seq<(Seq<u8>, Seq<u8>)>,
    name: Seq<u8>,
    from: int,
) -> int
    decreases entries.len() - from,
{
    if from < 0 || from >= entries.len() {
        -1
    } else if entries[from].0 == name {
        from
    } else {
        find_entry_index_from(entries, name, from + 1)
    }
}

/// The index of the first entry with the given name, or -1.
pub open spec fn find_entry_index(entries: Seq<(Seq<u8>, Seq<u8>)>, name: Seq<u8>) -> int {
    find_entry_index_from(entries, name, 0)
}

/// Relies on zip::ZipArchive::name_for_index: the name of the entry at
/// the index, straight from the parsed metadata; it touches nothing but
/// that metadata, so for an index in range it cannot fail.
#[verifier::external_body]
fn entry_name(a: &zip::read::ZipArchive<std::io::Cursor<Vec<u8>>>, i: usize) -> (r: Vec<u8>)
    requires
        i < archive_entries(*a).len(),
    ensures
        r@ == archive_entries(*a)[i as int].0,
{
    match a.name_for_index(i) {
        Some(n) => n.as_bytes().to_vec(),
        None => Vec::new(),
    }
}

/// Find the index of the first entry with the given name. Only entry
/// names are consulted — no content is read — so the search cannot fail.
fn find_entry_index_exec(
    a: &zip::read::ZipArchive<std::io::Cursor<Vec<u8>>>,
    name: &Vec<u8>,
) -> (r: Option<usize>)
    ensures
        match r {
            Some(i) => i == find_entry_index(archive_entries(*a), name@) && i < archive_entries(
                *a,
            ).len(),
            None => find_entry_index(archive_entries(*a), name@) == -1,
        },
{
    let n = archive_len(a);
    let mut i: usize = 0;
    while i < n
        invariant
            i <= n,
            n == archive_entries(*a).len(),
            find_entry_index(archive_entries(*a), name@) == find_entry_index_from(
                archive_entries(*a),
                name@,
                i as int,
            ),
        decreases n - i,
    {
        let ename = entry_name(a, i);
        if bytes_eq(&ename, name) {
            return Some(i);
        }
        i += 1;
    }
    None
}

/// Executable name of the `fields.csv` stream.
fn fields_csv_vec() -> (r: Vec<u8>)
    ensures
        r@ == fields_csv(),
{
    let mut v: Vec<u8> = Vec::new();
    v.push(102u8);
    v.push(105u8);
    v.push(101u8);
    v.push(108u8);
    v.push(100u8);
    v.push(115u8);
    v.push(46u8);
    v.push(99u8);
    v.push(115u8);
    v.push(118u8);
    proof {
        assert(v@ =~= fields_csv());
    }
    v
}

/// Executable name of the `methods.csv` stream.
fn methods_csv_vec() -> (r: Vec<u8>)
    ensures
        r@ == methods_csv(),
{
    let mut v: Vec<u8> = Vec::new();
    v.push(109u8);
    v.push(101u8);
    v.push(116u8);
    v.push(104u8);
    v.push(111u8);
    v.push(100u8);
    v.push(115u8);
    v.push(46u8);
    v.push(99u8);
    v.push(115u8);
    v.push(118u8);
    proof {
        assert(v@ =~= methods_csv());
    }
    v
}

/// Executable name of the `params.csv` stream.
fn params_csv_vec() -> (r: Vec<u8>)
    ensures
        r@ == params_csv(),
{
    let mut v: Vec<u8> = Vec::new();
    v.push(112u8);
    v.push(97u8);
    v.push(114u8);
    v.push(97u8);
    v.push(109u8);
    v.push(115u8);
    v.push(46u8);
    v.push(99u8);
    v.push(115u8);
    v.push(118u8);
    proof {
        assert(v@ =~= params_csv());
    }
    v
}

/// The bytes of `fields.csv`, the field-name table's stream name.
pub open spec fn fields_csv() -> Seq<u8> {
    seq![102u8, 105u8, 101u8, 108u8, 100u8, 115u8, 46u8, 99u8, 115u8, 118u8]
}

/// The bytes of `methods.csv`, the method-name table's stream name.
pub open spec fn methods_csv() -> Seq<u8> {
    seq![109u8, 101u8, 116u8, 104u8, 111u8, 100u8, 115u8, 46u8, 99u8, 115u8, 118u8]
}

/// The bytes of `params.csv`, the parameter-name table's stream name.
pub open spec fn params_csv() -> Seq<u8> {
    seq![112u8, 97u8, 114u8, 97u8, 109u8, 115u8, 46u8, 99u8, 115u8, 118u8]
}

/// The mapping one category ends up with: the parsed table of its
/// stream's content when the container has such a stream and its content
/// can be read; the empty mapping when the stream is absent or its
/// content cannot be read.
pub open spec fn category_map(
    bytes: Seq<u8>,
    entries: Seq<(Seq<u8>, Seq<u8>)>,
    stream: Seq<u8>,
) -> Map<Seq<u8>, Seq<u8>> {
    let i = find_entry_index(entries, stream);
    if i == -1 {
        Map::empty()
    } else if entry_readable(bytes, i) {
        table_map(entries[i].1)
    } else {
        Map::empty()
    }
}

/// Load one category's mapping: locate its stream by name (consulting
/// names only), then read and parse that one stream's content. An absent
/// or unreadable stream yields the empty mapping; nothing here can fail.
fn load_category(
    a: &mut zip::read::ZipArchive<std::io::Cursor<Vec<u8>>>,
    name: &Vec<u8>,
    Ghost(bytes): Ghost<Seq<u8>>,
) -> (m: Mapping)
    requires
        forall|j: int| #[trigger] archive_entry_readable(*old(a), j) == entry_readable(bytes, j),
    ensures
        archive_entries(*final(a)) == archive_entries(*old(a)),
        forall|j: int|
            #[trigger] archive_entry_readable(*final(a), j) == archive_entry_readable(*old(a), j),
        m@ == category_map(bytes, archive_entries(*old(a)), name@),
{
    match find_entry_index_exec(a, name) {
        None => Mapping::new(),
        Some(i) => match read_entry(a, i) {
            None => Mapping::new(),
            Some(p) => crate::mapping::load_table(&p.1),
        },
    }
}

/// Load the three mapping tables from the bytes of a mappings archive.
///
/// The call fails exactly when the bytes are not a parseable archive. A
/// category whose stream is absent — or whose one stream cannot be read —
/// gets the empty mapping, so its tokens later pass through unchanged;
/// the streams are located by name alone, so no other entry's content is
/// ever touched.
pub fn load_mapping_set(bytes: Vec<u8>) -> (r: Result<MappingSet, RemapError>)
    ensures
        match r {
            Ok(ms) => zip_parse(bytes@) matches Some(entries) && ms@.fields == category_map(
                bytes@,
                entries,
                fields_csv(),
            ) && ms@.methods == category_map(bytes@, entries, methods_csv()) && ms@.params
                == category_map(bytes@, entries, params_csv()),
            Err(e) => e == RemapError::MappingLoad,
        },
        r is Err <==> zip_parse(bytes@) is None,
{
    let mut a = match open_archive(bytes) {
        Some(a) => a,
        None => {
            return Err(RemapError::MappingLoad);
        },
    };
    let fields = load_category(&mut a, &fields_csv_vec(), Ghost(bytes@));
    let methods = load_category(&mut a, &methods_csv_vec(), Ghost(bytes@));
    let params = load_category(&mut a, &params_csv_vec(), Ghost(bytes@));
    Ok(MappingSet { fields, methods, params })
}

/// The readable entries among the first `n` of the archive parsed from
/// `bytes`, in order.
pub open spec fn readable_prefix(
    bytes: Seq<u8>,
    entries: Seq<(Seq<u8>, Seq<u8>)>,
    n: int,
) -> Seq<(Seq<u8>, Seq<u8>)>
    decreases n,
{
    if n <= 0 {
        Seq::empty()
    } else if entry_readable(bytes, n - 1) {
        readable_prefix(bytes, entries, n - 1).push(entries[n - 1])
    } else {
        readable_prefix(bytes, entries, n - 1)
    }
}

/// The entries of the archive parsed from `bytes` whose content can be
/// read, in order.
pub open spec fn readable_entries(
    bytes: Seq<u8>,
    entries: Seq<(Seq<u8>, Seq<u8>)>,
) -> Seq<(Seq<u8>, Seq<u8>)> {
    readable_prefix(bytes, entries, entries.len() as int)
}

/// A successful run's outcome, exactly: the items are the output plan
/// over the readable entries of the archive, in order, and the skipped
/// count is the number of unreadable entries.
pub open spec fn remap_outcome_ok(
    items: Seq<crate::walker::PlannedOutput>,
    skipped: int,
    jar_name: Seq<u8>,
    bytes: Seq<u8>,
    entries: Seq<(Seq<u8>, Seq<u8>)>,
    ms: MappingSetView,
) -> bool {
    &&& items == plan_spec(jar_name, readable_entries(bytes, entries), ms)
    &&& skipped + readable_entries(bytes, entries).len() == entries.len()
}

/// What one run over a target archive produced: the planned outputs, and
/// how many entries had to be skipped because their bytes could not be
/// read. A skipped entry never aborts the rest of the archive.
pub struct RemapOutcome {
    pub items: Vec<OutputItem>,
    pub skipped: usize,
}

/// A remapping session: the three mapping tables, applied to every
/// eligible entry of a target archive.
pub struct JarRemapper {
    /// The three token-to-name tables the session substitutes from.
    pub mappings: MappingSet,
}

impl View for JarRemapper {
    type V = MappingSetView;

    open spec fn view(&self) -> MappingSetView {
        self.mappings@
    }
}

impl JarRemapper {
    /// A session over the given mapping tables.
    pub fn new(mappings: MappingSet) -> (r: JarRemapper)
        ensures
            r@ == mappings@,
    {
        JarRemapper { mappings }
    }

    /// Remap a whole target archive, given its name and its bytes.
    ///
    /// Fails exactly when the bytes are not a readable archive. On
    /// success the outcome's items are exactly the output plan for the
    /// readable entries of the archive, in order, and the skipped count
    /// is the number of entries whose bytes could not be read.
    pub fn remap_jar(&self, jar_name: &Vec<u8>, jar_bytes: Vec<u8>) -> (r: Result<
        RemapOutcome,
        RemapError,
    >)
        ensures
            match r {
                Ok(out) => zip_parse(jar_bytes@) is Some && remap_outcome_ok(
                    outputs_view(out.items@),
                    out.skipped as int,
                    jar_name@,
                    jar_bytes@,
                    zip_parse(jar_bytes@)->Some_0,
                    self@,
                ),
                Err(e) => e == RemapError::ArchiveOpen && zip_parse(jar_bytes@) is None,
            },
            zip_parse(jar_bytes@) is None <==> r is Err,
    {
        let mut a = match open_archive(jar_bytes) {
            Some(a) => a,
            None => {
                return Err(RemapError::ArchiveOpen);
            },
        };
        let ghost all = archive_entries(a);
        let n = archive_len(&a);
        let mut kept: Vec<(Vec<u8>, Vec<u8>)> = Vec::new();
        let mut skipped: usize = 0;
        let mut i: usize = 0;
        while i < n
            invariant
                i <= n,
                n == archive_entries(a).len(),
                archive_entries(a) == all,
                forall|j: int|
                    #[trigger] archive_entry_readable(a, j) == entry_readable(jar_bytes@, j),
                skipped + kept@.len() == i,
                crate::mapping::pair_views(kept@) == readable_prefix(jar_bytes@, all, i as int),
            decreases n - i,
        {
            let ghost before = crate::mapping::pair_views(kept@);
            match read_entry(&mut a, i) {
                None => {
                    skipped += 1;
                    proof {
                        assert(!entry_readable(jar_bytes@, i as int));
                        assert(readable_prefix(jar_bytes@, all, i + 1) == before);
                    }
                },
                Some(p) => {
                    kept.push(p);
                    proof {
                        assert(entry_readable(jar_bytes@, i as int));
                        assert(crate::mapping::pair_views(kept@) =~= before.push((p.0@, p.1@)));
                        assert(readable_prefix(jar_bytes@, all, i + 1) == before.push(
                            all[i as int],
                        ));
                    }
                },
            }
            i += 1;
        }
        let items = plan_outputs(jar_name, &kept, &self.mappings);
        let outcome = RemapOutcome { items, skipped };
        proof {
            assert(zip_parse(jar_bytes@) == Some(all));
            assert(crate::mapping::pair_views(kept@) == readable_entries(jar_bytes@, all));
            assert(remap_outcome_ok(
                outputs_view(outcome.items@),
                outcome.skipped as int,
                jar_name@,
                jar_bytes@,
                all,
                self@,
            ));
        }
        Ok(outcome)
    }
}

} // verus!
