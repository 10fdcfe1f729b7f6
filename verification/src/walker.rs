//! The archive walker's decisions: which entries are directories, which
//! are eligible source text, where each output goes, and the full output
//! plan for a sequence of archive entries.

use vstd::prelude::*;
use crate::bytes::{has_suffix, find_sub_from, find_sub, ends_with, extend_bytes};
use crate::mapping::{MappingSet, MappingSetView, pair_views};
use crate::substitute::{remap_text, remap_text_exec};

verus! {

/// The bytes of `.java`, the recognized source-file extension.
pub open spec fn java_suffix() -> Seq<u8> {
    seq![46u8, 106u8, 97u8, 118u8, 97u8]
}

/// The bytes of `.jar`, the archive-file suffix stripped from the target
/// archive's name to form the output root.
pub open spec fn jar_suffix() -> Seq<u8> {
    seq![46u8, 106u8, 97u8, 114u8]
}

/// A directory entry: its name ends with the path separator.
pub open spec fn is_dir_name(name: Seq<u8>) -> bool {
    name.len() > 0 && name.last() == 47u8
}

/// An eligible text entry: its name has the source-file extension.
pub open spec fn is_source_name(name: Seq<u8>) -> bool {
    has_suffix(name, java_suffix())
}

/// A `..` path component somewhere in the name.
pub open spec fn has_parent_component(name: Seq<u8>) -> bool {
    exists|j: int|
        0 <= j && j + 2 <= name.len() && (#[trigger] name[j]) == 46u8 && name[j + 1] == 46u8 && (j
            == 0 || name[j - 1] == 47u8) && (j + 2 == name.len() || name[j + 2] == 47u8)
}

/// The library's extraction-safety policy for entry names: non-empty, not
/// absolute, free of NUL bytes, backslashes and drive colons, and without
/// a `..` component. Entries whose names fail this test are skipped, so an
/// archive cannot direct output outside the output root.
pub open spec fn safe_name(name: Seq<u8>) -> bool {
    name.len() > 0 && name[0] != 47u8 && (forall|j: int|
        0 <= j < name.len() ==> name[j] != 0u8 && name[j] != 92u8 && name[j] != 58u8)
        && !has_parent_component(name)
}

/// Executable test of `safe_name`.
pub fn safe_name_exec(name: &Vec<u8>) -> (r: bool)
    ensures
        r == safe_name(name@),
{
    if name.len() == 0 {
        return false;
    }
    if name[0] == 47u8 {
        return false;
    }
    let n = name.len();
    let mut j: usize = 0;
    while j < n
        invariant
            j <= n,
            n == name@.len(),
            forall|t: int| 0 <= t < j ==> name@[t] != 0u8 && name@[t] != 92u8 && name@[t] != 58u8,
            forall|t: int|
                0 <= t < j ==> !(t + 2 <= name@.len() && (#[trigger] name@[t]) == 46u8 && name@[t
                    + 1] == 46u8 && (t == 0 || name@[t - 1] == 47u8) && (t + 2 == name@.len()
                    || name@[t + 2] == 47u8)),
        decreases n - j,
    {
        let b = name[j];
        if b == 0u8 || b == 92u8 || b == 58u8 {
            return false;
        }
        if b == 46u8 && n - j >= 2 && name[j + 1] == 46u8 && (j == 0 || name[j - 1] == 47u8) && (n
            - j == 2 || name[j + 2] == 47u8) {
            return false;
        }
        j += 1;
    }
    assert(!has_parent_component(name@)) by {
        if has_parent_component(name@) {
            let t = choose|t: int|
                0 <= t && t + 2 <= name@.len() && (#[trigger] name@[t]) == 46u8 && name@[t + 1]
                    == 46u8 && (t == 0 || name@[t - 1] == 47u8) && (t + 2 == name@.len()
                    || name@[t + 2] == 47u8);
            assert(t < j);
        }
    }
    true
}

/// The output location for an entry: the target archive's name up to the
/// first occurrence of `.jar`, as a root directory joined with `/`; the
/// entry path alone when the archive's name holds no `.jar`, or when the
/// part before it is empty.
pub open spec fn output_path(jar_name: Seq<u8>, entry: Seq<u8>) -> Seq<u8> {
    let v = find_sub_from(jar_name, jar_suffix(), 0);
    if v <= 0 {
        entry
    } else {
        jar_name.subrange(0, v) + seq![47u8] + entry
    }
}

/// Executable `.jar` suffix.
fn jar_suffix_vec() -> (r: Vec<u8>)
    ensures
        r@ == jar_suffix(),
{
    let mut v: Vec<u8> = Vec::new();
    v.push(46u8);
    v.push(106u8);
    v.push(97u8);
    v.push(114u8);
    proof {
        assert(v@ =~= jar_suffix());
    }
    v
}

/// Executable `.java` suffix.
fn java_suffix_vec() -> (r: Vec<u8>)
    ensures
        r@ == java_suffix(),
{
    let mut v: Vec<u8> = Vec::new();
    v.push(46u8);
    v.push(106u8);
    v.push(97u8);
    v.push(118u8);
    v.push(97u8);
    proof {
        assert(v@ =~= java_suffix());
    }
    v
}

/// Build the output path for an entry, as executable code.
pub fn output_path_exec(jar_name: &Vec<u8>, entry: &Vec<u8>) -> (r: Vec<u8>)
    ensures
        r@ == output_path(jar_name@, entry@),
{
    let pat = jar_suffix_vec();
    let mut out: Vec<u8> = Vec::new();
    match find_sub(jar_name, &pat) {
        None => {
            extend_bytes(&mut out, entry);
            assert(out@ =~= output_path(jar_name@, entry@));
        },
        Some(v) => {
            if v == 0 {
                extend_bytes(&mut out, entry);
                assert(out@ =~= output_path(jar_name@, entry@));
            } else {
                proof {
                    crate::bytes::lemma_find_sub_from(jar_name@, pat@, 0);
                }
                crate::bytes::extend_range(&mut out, jar_name, 0, v);
                out.push(47u8);
                extend_bytes(&mut out, entry);
                assert(out@ =~= output_path(jar_name@, entry@));
            }
        },
    }
    out
}

/// What the pipeline makes of one non-directory entry's bytes: eligible
/// source text is remapped, anything else is passed through byte-identical.
pub open spec fn entry_output(name: Seq<u8>, content: Seq<u8>, ms: MappingSetView) -> Seq<u8> {
    if is_source_name(name) {
        remap_text(content, ms)
    } else {
        content
    }
}

/// Law: an entry without the source-file extension comes out of the
/// pipeline byte-identical, whatever the mappings hold.
pub proof fn lemma_opaque_entry_passthrough(name: Seq<u8>, content: Seq<u8>, ms: MappingSetView)
    requires
        !is_source_name(name),
    ensures
        entry_output(name, content, ms) == content,
{
}

/// What is to be done at one output location.
pub enum EntryAction {
    /// Create the directory.
    MakeDirectory,
    /// Write these bytes as a file.
    WriteFile(Vec<u8>),
}

/// The spec-level counterpart of `EntryAction`.
pub enum PlannedAction {
    MakeDirectory,
    WriteFile(Seq<u8>),
}

pub open spec fn action_view(a: EntryAction) -> PlannedAction {
    match a {
        EntryAction::MakeDirectory => PlannedAction::MakeDirectory,
        EntryAction::WriteFile(v) => PlannedAction::WriteFile(v@),
    }
}

/// One planned output: where, and what.
pub struct OutputItem {
    pub path: Vec<u8>,
    pub action: EntryAction,
}

/// The spec-level counterpart of `OutputItem`.
pub struct PlannedOutput {
    pub path: Seq<u8>,
    pub act: PlannedAction,
}

pub open spec fn outputs_view(items: Seq<OutputItem>) -> Seq<PlannedOutput> {
    Seq::new(items.len(), |i: int| PlannedOutput { path: items[i].path@, act: action_view(items[i].action) })
}

/// The output plan for a sequence of archive entries, in order: entries
/// with unsafe names are skipped; a directory entry becomes a directory at
/// its output path; any other entry becomes a file at its output path,
/// remapped when eligible and byte-identical otherwise.
pub open spec fn plan_spec(
    jar_name: Seq<u8>,
    entries: Seq<(Seq<u8>, Seq<u8>)>,
    ms: MappingSetView,
) -> Seq<PlannedOutput>
    decreases entries.len(),
{
    if entries.len() == 0 {
        Seq::empty()
    } else {
        let rest = plan_spec(jar_name, entries.drop_last(), ms);
        let e = entries.last();
        if !safe_name(e.0) {
            rest
        } else if is_dir_name(e.0) {
            rest.push(
                PlannedOutput { path: output_path(jar_name, e.0), act: PlannedAction::MakeDirectory },
            )
        } else {
            rest.push(
                PlannedOutput {
                    path: output_path(jar_name, e.0),
                    act: PlannedAction::WriteFile(entry_output(e.0, e.1, ms)),
                },
            )
        }
    }
}

/// Build the output plan for the entries, as executable code.
pub fn plan_outputs(jar_name: &Vec<u8>, entries: &Vec<(Vec<u8>, Vec<u8>)>, ms: &MappingSet) -> (r:
    Vec<OutputItem>)
    ensures
        outputs_view(r@) == plan_spec(jar_name@, pair_views(entries@), ms@),
{
    let java = java_suffix_vec();
    let mut out: Vec<OutputItem> = Vec::new();
    let mut i: usize = 0;
    proof {
        assert(pair_views(entries@).subrange(0, 0) =~= Seq::<(Seq<u8>, Seq<u8>)>::empty());
        assert(outputs_view(out@) =~= plan_spec(jar_name@, pair_views(entries@).subrange(0, 0), ms@));
    }
    while i < entries.len()
        invariant
            i <= entries@.len(),
            java@ == java_suffix(),
            outputs_view(out@) == plan_spec(jar_name@, pair_views(entries@).subrange(0, i as int), ms@),
        decreases entries.len() - i,
    {
        let ghost done = pair_views(entries@).subrange(0, i as int);
        let ghost next = pair_views(entries@).subrange(0, i + 1);
        proof {
            assert(next.drop_last() =~= done);
            assert(next.last() == pair_views(entries@)[i as int]);
        }
        let name = &entries[i].0;
        if safe_name_exec(name) {
            let path = output_path_exec(jar_name, name);
            let ghost prev = outputs_view(out@);
            if name.len() > 0 && name[name.len() - 1] == 47u8 {
                out.push(OutputItem { path, action: EntryAction::MakeDirectory });
            } else {
                let content: Vec<u8>;
                if ends_with(name, &java) {
                    content = remap_text_exec(&entries[i].1, ms);
                } else {
                    let mut c: Vec<u8> = Vec::new();
                    extend_bytes(&mut c, &entries[i].1);
                    content = c;
                }
                out.push(OutputItem { path, action: EntryAction::WriteFile(content) });
            }
            proof {
                assert(outputs_view(out@) =~= prev.push(
                    outputs_view(out@)[out@.len() - 1],
                ));
                assert(outputs_view(out@) =~= plan_spec(jar_name@, next, ms@));
            }
        } else {
            proof {
                assert(outputs_view(out@) =~= plan_spec(jar_name@, next, ms@));
            }
        }
        i += 1;
    }
    proof {
        assert(pair_views(entries@).subrange(0, entries@.len() as int) =~= pair_views(entries@));
    }
    out
}

} // verus!
