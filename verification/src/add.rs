//! The add pipeline: classifying working-tree files against the head
//! commit's tree, ingesting changed blobs into the version store, and
//! recording staged entries — file entries and their ancestor directory
//! entries — in the staged database.

use vstd::prelude::*;

verus! {

use vstd::hash_set::StringHashSet;
use crate::hash::{
    MerkleHash, hash_bytes_spec, hash_bytes, hash_chars_spec, hash_str, combine_hashes_spec,
    combine_hashes, combined_hash_of, HASH_OFFSET,
};
use crate::kvdb::KvDb;
use crate::model::{
    EntryDataType, StagedEntryStatus, FileNode, FileNodeView, MetadataField, MetadataSchema,
    TabularMetadata, TextMetadata, GenericMetadata, MetaView, FieldView, WorkingFile,
    NodeMergeConflict, StagedMerkleTreeNode, StagedNodeView, NodeView, opt_meta_view,
    clone_opt_metadata, fields_view,
};
use crate::paths::{extension_of, name_extension, ancestors_of};
use crate::staged::{p_add_file_node_to_staged_db, is_staged_dir};
use crate::tree::{DirNodeWithChildren, get_file_node};
use crate::conflicts::mark_conflict_as_resolved;
use crate::errors::OxenError;

/// The classification of one working-tree file against the head commit.
pub struct FileStatus {
    /// Path of the data file, relative to the repository root.
    pub data_path: String,
    /// Added, Modified or Unmodified.
    pub status: StagedEntryStatus,
    /// Content hash of the file's bytes.
    pub hash: MerkleHash,
    /// Size recorded for the staged entry.
    pub num_bytes: u64,
    /// Modification time, seconds part.
    pub mtime_seconds: i64,
    /// Modification time, nanoseconds part.
    pub mtime_nanoseconds: u32,
    /// Metadata of the prior file node, when the head commit tracks the file.
    pub previous_metadata: Option<GenericMetadata>,
    /// The prior file node itself, when the head commit tracks the file.
    pub previous_file_node: Option<FileNode>,
}

/// The file node the head commit tracks under a name, among a loaded
/// directory's children.
pub open spec fn child_view(d: Option<DirNodeWithChildren>, name: Seq<char>) -> Option<
    FileNodeView,
> {
    match d {
        Some(dn) => if dn.children@.contains_key(name) {
            Some(dn.children@[name]@)
        } else {
            None
        },
        None => None,
    }
}

/// The status of a file: `Added` when the head commit does not track it,
/// `Unmodified` when its content hash equals the tracked one, `Modified`
/// otherwise.
pub open spec fn status_of(prior: Option<FileNodeView>, bytes: Seq<u8>) -> StagedEntryStatus {
    match prior {
        None => StagedEntryStatus::Added,
        Some(n) => if n.hash == hash_bytes_spec(bytes) {
            StagedEntryStatus::Unmodified
        } else {
            StagedEntryStatus::Modified
        },
    }
}

/// Whether a tracked node's recorded modification time differs from the
/// file's current one.
pub open spec fn mtime_differs(n: FileNodeView, s: i64, ns: u32) -> bool {
    n.last_modified_nanoseconds != ns || n.last_modified_seconds != s
}

/// The byte count recorded for a file: the tracked count when the content
/// hash is unchanged, the file's own size otherwise.
pub open spec fn num_bytes_of(prior: Option<FileNodeView>, f: WorkingFile) -> u64 {
    match prior {
        None => f.bytes@.len() as u64,
        Some(n) => if n.hash == hash_bytes_spec(f.bytes@) {
            n.num_bytes
        } else {
            f.bytes@.len() as u64
        },
    }
}

/// Whether a file node's recorded modification time differs from the given
/// one.
pub fn has_different_modification_time(node: &FileNode, mtime_seconds: i64, mtime_nanoseconds: u32)
    -> (r: bool)
    ensures
        r == mtime_differs(node@, mtime_seconds, mtime_nanoseconds),
{
    node.last_modified_nanoseconds != mtime_nanoseconds || node.last_modified_seconds
        != mtime_seconds
}

/// Classifies one working-tree file against the head commit's directory
/// node: looks up the prior file node by name, hashes the file's bytes, and
/// derives status and recorded size.
///
/// The content hash is always recomputed from the bytes, whatever the
/// recorded modification time says; a modified entry reports the file's
/// current size, an unmodified one keeps the tracked count.
pub fn determine_file_status(
    maybe_dir_node: &Option<DirNodeWithChildren>,
    file_name: &str,
    data_path: &str,
    file: &WorkingFile,
) -> (r: FileStatus)
    requires
        file.bytes@.len() <= u64::MAX,
    ensures
        r.data_path@ == data_path@,
        r.mtime_seconds == file.mtime_seconds,
        r.mtime_nanoseconds == file.mtime_nanoseconds,
        r.hash.spec_value() == hash_bytes_spec(file.bytes@),
        r.status == status_of(child_view(*maybe_dir_node, file_name@), file.bytes@),
        r.num_bytes == num_bytes_of(child_view(*maybe_dir_node, file_name@), *file),
        match (r.previous_file_node, child_view(*maybe_dir_node, file_name@)) {
            (Some(n), Some(c)) => n@ == c,
            (None, None) => true,
            _ => false,
        },
        opt_meta_view(r.previous_metadata) == match child_view(*maybe_dir_node, file_name@) {
            Some(c) => c.metadata,
            None => None,
        },
{
    let maybe_file_node = get_file_node(maybe_dir_node, file_name);
    let hash_value = hash_bytes(file.bytes.as_slice());
    let mtime_seconds = file.mtime_seconds;
    let mtime_nanoseconds = file.mtime_nanoseconds;

    let (status, num_bytes, previous_metadata) = match &maybe_file_node {
        Some(file_node) => {
            let previous_metadata = clone_opt_metadata(&file_node.metadata);
            if file_node.hash.to_u128() != hash_value {
                (StagedEntryStatus::Modified, file.bytes.len() as u64, previous_metadata)
            } else {
                (StagedEntryStatus::Unmodified, file_node.num_bytes, previous_metadata)
            }
        },
        None => (StagedEntryStatus::Added, file.bytes.len() as u64, None),
    };

    FileStatus {
        data_path: data_path.to_owned(),
        status,
        hash: MerkleHash::new(hash_value),
        num_bytes,
        mtime_seconds,
        mtime_nanoseconds,
        previous_metadata,
        previous_file_node: maybe_file_node,
    }
}

/// The broad data type a file extension implies.
pub open spec fn data_type_of(ext: Seq<char>) -> EntryDataType {
    if ext == "csv"@ || ext == "tsv"@ || ext == "parquet"@ {
        EntryDataType::Tabular
    } else if ext == "txt"@ || ext == "md"@ {
        EntryDataType::Text
    } else if ext == "png"@ || ext == "jpg"@ || ext == "jpeg"@ {
        EntryDataType::Image
    } else if ext == "mp3"@ || ext == "wav"@ {
        EntryDataType::Audio
    } else if ext == "mp4"@ || ext == "avi"@ {
        EntryDataType::Video
    } else {
        EntryDataType::Binary
    }
}

/// The mime type string reported for each broad data type.
pub open spec fn mime_type_of(dt: EntryDataType) -> Seq<char> {
    match dt {
        EntryDataType::Tabular => "text/csv"@,
        EntryDataType::Text => "text/plain"@,
        EntryDataType::Image => "image/unknown"@,
        EntryDataType::Audio => "audio/unknown"@,
        EntryDataType::Video => "video/unknown"@,
        EntryDataType::Binary => "application/octet-stream"@,
    }
}

/// The broad data type a file extension implies.
pub fn data_type_from_extension(ext: &str) -> (r: EntryDataType)
    ensures
        r == data_type_of(ext@),
{
    if crate::strings::str_eq(ext, "csv") || crate::strings::str_eq(ext, "tsv")
        || crate::strings::str_eq(ext, "parquet") {
        EntryDataType::Tabular
    } else if crate::strings::str_eq(ext, "txt") || crate::strings::str_eq(ext, "md") {
        EntryDataType::Text
    } else if crate::strings::str_eq(ext, "png") || crate::strings::str_eq(ext, "jpg")
        || crate::strings::str_eq(ext, "jpeg") {
        EntryDataType::Image
    } else if crate::strings::str_eq(ext, "mp3") || crate::strings::str_eq(ext, "wav") {
        EntryDataType::Audio
    } else if crate::strings::str_eq(ext, "mp4") || crate::strings::str_eq(ext, "avi") {
        EntryDataType::Video
    } else {
        EntryDataType::Binary
    }
}

/// The mime type string for a broad data type.
pub fn mime_type_for(dt: EntryDataType) -> (r: String)
    ensures
        r@ == mime_type_of(dt),
{
    match dt {
        EntryDataType::Tabular => String::from_str("text/csv"),
        EntryDataType::Text => String::from_str("text/plain"),
        EntryDataType::Image => String::from_str("image/unknown"),
        EntryDataType::Audio => String::from_str("audio/unknown"),
        EntryDataType::Video => String::from_str("video/unknown"),
        EntryDataType::Binary => String::from_str("application/octet-stream"),
    }
}

/// The number of line-feed bytes in a blob.
pub open spec fn count_newlines(bytes: Seq<u8>) -> int
    decreases bytes.len(),
{
    if bytes.len() == 0 {
        0
    } else {
        count_newlines(bytes.drop_last()) + if bytes.last() == 10u8 {
            1int
        } else {
            0int
        }
    }
}

/// The data-type-specific metadata computed from a file's bytes: line and
/// character counts for text. Other data types yield none, so a tabular
/// file whose schema cannot be read is downgraded to binary.
pub open spec fn metadata_of(bytes: Seq<u8>, dt: EntryDataType) -> Option<MetaView> {
    match dt {
        EntryDataType::Text => Some(
            MetaView::Text(
                TextMetadata { num_lines: count_newlines(bytes) as u64, num_chars: bytes.len() as u64 },
            ),
        ),
        _ => None,
    }
}

/// Computes [`metadata_of`] a file's bytes.
pub fn get_file_metadata(bytes: &Vec<u8>, dt: EntryDataType) -> (r: Option<GenericMetadata>)
    requires
        bytes@.len() <= u64::MAX,
    ensures
        opt_meta_view(r) == metadata_of(bytes@, dt),
{
    match dt {
        EntryDataType::Text => {
            let mut count: u64 = 0;
            let mut i: usize = 0;
            proof {
                lemma_count_newlines_bound(bytes@, 0);
            }
            while i < bytes.len()
                invariant
                    i <= bytes@.len(),
                    bytes@.len() <= u64::MAX,
                    count == count_newlines(bytes@.subrange(0, i as int)),
                    count <= i,
                decreases bytes@.len() - i,
            {
                proof {
                    let pre = bytes@.subrange(0, i as int);
                    let post = bytes@.subrange(0, i + 1 as int);
                    assert(post.drop_last() =~= pre);
                    assert(post.last() == bytes@[i as int]);
                }
                if bytes[i] == 10 {
                    count = count + 1;
                }
                i = i + 1;
            }
            proof {
                assert(bytes@.subrange(0, bytes@.len() as int) =~= bytes@);
            }
            Some(
                GenericMetadata::MetadataText(
                    TextMetadata { num_lines: count, num_chars: bytes.len() as u64 },
                ),
            )
        },
        _ => None,
    }
}

/// A prefix holds no more line feeds than its length.
proof fn lemma_count_newlines_bound(bytes: Seq<u8>, i: int)
    ensures
        0 <= count_newlines(bytes) <= bytes.len(),
    decreases bytes.len(),
{
    if bytes.len() > 0 {
        lemma_count_newlines_bound(bytes.drop_last(), i);
    }
}

/// The hash of one schema field: its name, data type and annotation folded
/// together.
pub open spec fn field_hash_spec(f: FieldView) -> u128 {
    combine_hashes_spec(
        combine_hashes_spec(hash_chars_spec(f.name), hash_chars_spec(f.dtype)),
        match f.metadata {
            Some(s) => hash_chars_spec(s),
            None => HASH_OFFSET,
        },
    )
}

/// The hash of a field sequence, folded left to right.
pub open spec fn fields_hash_spec(fields: Seq<FieldView>) -> u128
    decreases fields.len(),
{
    if fields.len() == 0 {
        HASH_OFFSET
    } else {
        combine_hashes_spec(fields_hash_spec(fields.drop_last()), field_hash_spec(fields.last()))
    }
}

/// The hash of data-type-specific metadata.
pub open spec fn metadata_hash_spec(m: MetaView) -> u128 {
    match m {
        MetaView::Tabular(fields) => fields_hash_spec(fields),
        MetaView::Text(t) => combine_hashes_spec(t.num_lines as u128, t.num_chars as u128),
    }
}

/// Computes [`metadata_hash_spec`].
pub fn get_metadata_hash(m: &GenericMetadata) -> (r: u128)
    ensures
        r == metadata_hash_spec(m@),
{
    match m {
        GenericMetadata::MetadataTabular(t) => {
            let fields = &t.schema.fields;
            let mut h: u128 = HASH_OFFSET;
            let mut i: usize = 0;
            while i < fields.len()
                invariant
                    i <= fields@.len(),
                    h == fields_hash_spec(fields_view(fields@).subrange(0, i as int)),
                decreases fields@.len() - i,
            {
                let f = &fields[i];
                let name_hash = hash_str(f.name.as_str());
                let dtype_hash = hash_str(f.dtype.as_str());
                let ann_hash = match &f.metadata {
                    Some(s) => hash_str(s.as_str()),
                    None => HASH_OFFSET,
                };
                proof {
                    let pre = fields_view(fields@).subrange(0, i as int);
                    let post = fields_view(fields@).subrange(0, i + 1 as int);
                    assert(post.drop_last() =~= pre);
                    assert(post.last() == fields@[i as int]@);
                }
                let field_hash = combine_hashes(combine_hashes(name_hash, dtype_hash), ann_hash);
                h = combine_hashes(h, field_hash);
                i = i + 1;
            }
            proof {
                assert(fields_view(fields@).subrange(0, fields_view(fields@).len() as int)
                    =~= fields_view(fields@));
            }
            h
        },
        GenericMetadata::MetadataText(t) => {
            combine_hashes(t.num_lines as u128, t.num_chars as u128)
        },
    }
}

/// The position of the first field with the given name, searching from
/// `from`.
pub open spec fn find_field_idx(prev: Seq<FieldView>, name: Seq<char>, from: int) -> Option<int>
    decreases prev.len() - from,
{
    if from < 0 || from >= prev.len() {
        None
    } else if prev[from].name == name {
        Some(from)
    } else {
        find_field_idx(prev, name, from + 1)
    }
}

/// A found field index lies in range and names the sought field.
pub proof fn lemma_find_field_idx_valid(prev: Seq<FieldView>, name: Seq<char>, from: int, j: int)
    requires
        find_field_idx(prev, name, from) == Some(j),
    ensures
        0 <= j < prev.len(),
        prev[j].name == name,
    decreases prev.len() - from,
{
    if !(from < 0 || from >= prev.len()) && prev[from].name != name {
        lemma_find_field_idx_valid(prev, name, from + 1, j);
    }
}

/// One schema field after the merge: the fresh field's name and data type,
/// with the annotation of the previously tracked field of the same name when
/// there is one.
pub open spec fn merged_field(df: FieldView, prev: Seq<FieldView>) -> FieldView {
    match find_field_idx(prev, df.name, 0) {
        Some(j) => FieldView { name: df.name, dtype: df.dtype, metadata: prev[j].metadata },
        None => df,
    }
}

/// The merged schema: every fresh field, annotated from the previous schema
/// by name.
pub open spec fn merge_fields_spec(df: Seq<FieldView>, prev: Seq<FieldView>) -> Seq<FieldView> {
    Seq::new(df.len(), |i: int| merged_field(df[i], prev))
}

/// The metadata recorded after a re-add: tabular schemas merge field
/// annotations by name from the previously tracked metadata; anything else
/// keeps the freshly computed metadata.
pub open spec fn merged_metadata_of(df: Option<MetaView>, prev: MetaView) -> Option<MetaView> {
    match (df, prev) {
        (Some(MetaView::Tabular(dfields)), MetaView::Tabular(pfields)) => Some(
            MetaView::Tabular(merge_fields_spec(dfields, pfields)),
        ),
        _ => df,
    }
}

/// Tabular metadata preservation: for every fresh field whose name the
/// previous schema also carries, the merged schema keeps the previous
/// field's annotation, under the fresh field's own name and data type.
pub proof fn lemma_tabular_metadata_preserved(
    df: Seq<FieldView>,
    prev: Seq<FieldView>,
    i: int,
    j: int,
)
    requires
        0 <= i < df.len(),
        find_field_idx(prev, df[i].name, 0) == Some(j),
    ensures
        0 <= j < prev.len(),
        prev[j].name == df[i].name,
        merge_fields_spec(df, prev)[i].metadata == prev[j].metadata,
        merge_fields_spec(df, prev)[i].name == df[i].name,
        merge_fields_spec(df, prev)[i].dtype == df[i].dtype,
{
    lemma_find_field_idx_valid(prev, df[i].name, 0, j);
}

/// Finds the first field with the given name.
fn find_field_by_name(fields: &Vec<MetadataField>, name: &str) -> (r: Option<usize>)
    ensures
        match r {
            Some(j) => find_field_idx(fields_view(fields@), name@, 0) == Some(j as int),
            None => find_field_idx(fields_view(fields@), name@, 0) is None,
        },
{
    let ghost fv = fields_view(fields@);
    let mut j: usize = 0;
    while j < fields.len()
        invariant
            fv == fields_view(fields@),
            j <= fields@.len(),
            fv.len() == fields@.len(),
            find_field_idx(fv, name@, 0) == find_field_idx(fv, name@, j as int),
        decreases fields@.len() - j,
    {
        proof {
            assert(fv[j as int] == fields@[j as int]@);
        }
        if crate::strings::str_eq(fields[j].name.as_str(), name) {
            return Some(j);
        }
        j = j + 1;
    }
    None
}

/// Merges field-level schema annotations from previously tracked tabular
/// metadata into freshly computed tabular metadata, by field name. Any other
/// combination returns the fresh metadata unchanged.
pub fn maybe_construct_generic_metadata_for_tabular(
    df_metadata: Option<GenericMetadata>,
    previous_oxen_metadata: GenericMetadata,
) -> (r: Option<GenericMetadata>)
    ensures
        opt_meta_view(r) == merged_metadata_of(
            opt_meta_view(df_metadata),
            previous_oxen_metadata@,
        ),
{
    match (df_metadata, &previous_oxen_metadata) {
        (
            Some(GenericMetadata::MetadataTabular(df)),
            GenericMetadata::MetadataTabular(prev),
        ) => {
            let ghost dfv = df.schema@;
            let ghost pfv = fields_view(prev.schema.fields@);
            let mut merged: Vec<MetadataField> = Vec::new();
            let mut i: usize = 0;
            while i < df.schema.fields.len()
                invariant
                    dfv == fields_view(df.schema.fields@),
                    pfv == fields_view(prev.schema.fields@),
                    i <= df.schema.fields@.len(),
                    dfv.len() == df.schema.fields@.len(),
                    merged@.len() == i,
                    forall|k: int|
                        0 <= k < i ==> (#[trigger] merged@[k])@ == merge_fields_spec(dfv, pfv)[k],
                decreases df.schema.fields@.len() - i,
            {
                let field = &df.schema.fields[i];
                proof {
                    assert(dfv[i as int] == df.schema.fields@[i as int]@);
                }
                let annotation = match find_field_by_name(&prev.schema.fields, field.name.as_str())
                {
                    Some(j) => {
                        proof {
                            lemma_find_field_idx_valid(pfv, field.name@, 0, j as int);
                            assert(pfv[j as int] == prev.schema.fields@[j as int]@);
                        }
                        crate::model::clone_opt_string(&prev.schema.fields[j].metadata)
                    },
                    None => crate::model::clone_opt_string(&field.metadata),
                };
                merged.push(
                    MetadataField {
                        name: field.name.clone(),
                        dtype: field.dtype.clone(),
                        metadata: annotation,
                    },
                );
                i = i + 1;
            }
            let r = GenericMetadata::MetadataTabular(
                TabularMetadata { schema: MetadataSchema { fields: merged } },
            );
            proof {
                assert(r@ matches MetaView::Tabular(f) && f =~= merge_fields_spec(dfv, pfv));
            }
            Some(r)
        },
        (df, _) => df,
    }
}

/// The file node the add pipeline records for a file: name, hashes, size,
/// times, data type, metadata — with the tabular annotation merge applied
/// against the previously tracked metadata, and the data type downgraded to
/// binary when a tabular file yields no metadata.
pub open spec fn built_node_spec(
    path: Seq<char>,
    content_hash: u128,
    num_bytes: u64,
    mtime_seconds: i64,
    mtime_nanoseconds: u32,
    prev_meta: Option<MetaView>,
    bytes: Seq<u8>,
) -> FileNodeView {
    let ext = extension_of(crate::paths::file_name_of(path));
    let dt0 = data_type_of(ext);
    let computed = metadata_of(bytes, dt0);
    let meta = match prev_meta {
        Some(p) => merged_metadata_of(computed, p),
        None => computed,
    };
    let dt = if meta is None && dt0 == EntryDataType::Tabular {
        EntryDataType::Binary
    } else {
        dt0
    };
    let mh = match meta {
        Some(m) => Some(metadata_hash_spec(m)),
        None => None,
    };
    FileNodeView {
        name: path,
        hash: content_hash,
        combined_hash: combined_hash_of(mh, content_hash),
        metadata_hash: mh,
        num_bytes,
        last_modified_seconds: mtime_seconds,
        last_modified_nanoseconds: mtime_nanoseconds,
        data_type: dt,
        metadata: meta,
        mime_type: mime_type_of(dt0),
        extension: ext,
    }
}

/// The status a staged entry records, once a pending conflict at the path
/// forces a file the head commit tracks to be staged as modified.
pub open spec fn effective_status(
    had_conflict: bool,
    status: StagedEntryStatus,
) -> StagedEntryStatus {
    if had_conflict {
        StagedEntryStatus::Modified
    } else {
        status
    }
}

/// Builds the file node for a classified file and writes its staged entry
/// and the staged entries of its ancestor directories.
///
/// A path that is no working-tree file gets a default directory staged
/// entry written at its own key, and nothing else changes. A pending
/// conflict at the path of a tracked file forces the entry to `Modified`
/// and deletes the conflict record. An `Unmodified` file writes nothing.
#[verifier::rlimit(60)]
pub fn process_add_file(
    working: &KvDb<WorkingFile>,
    conflicts: &mut KvDb<NodeMergeConflict>,
    staged_db: &mut KvDb<StagedMerkleTreeNode>,
    seen_dirs: &mut StringHashSet,
    relative_path: &str,
    file_status: &FileStatus,
) -> (r: Option<StagedMerkleTreeNode>)
    requires
        old(conflicts).wf(),
        old(staged_db).wf(),
        relative_path@.len() > 0,
        working@.contains_key(relative_path@) ==> working@[relative_path@].bytes@.len()
            <= u64::MAX,
        crate::staged::seen_dirs_staged(old(seen_dirs)@, old(staged_db)@),
        !old(seen_dirs)@.contains(relative_path@),
    ensures
        final(conflicts).wf(),
        final(staged_db).wf(),
        crate::staged::seen_dirs_staged(final(seen_dirs)@, final(staged_db)@),
        forall|p: Seq<char>|
            #[trigger] final(seen_dirs)@.contains(p) ==> old(seen_dirs)@.contains(p)
                || ancestors_of(relative_path@).contains(p),
        !working@.contains_key(relative_path@) ==> final(conflicts)@ == old(conflicts)@
            && final(staged_db)@.contains_key(relative_path@) && is_staged_dir(
            final(staged_db)@[relative_path@]@,
            relative_path@,
        ) && (forall|k: Seq<char>|
            #![trigger final(staged_db)@.contains_key(k)]
            #![trigger final(staged_db)@[k]]
            k != relative_path@ ==> (final(staged_db)@.contains_key(k) == old(
                staged_db,
            )@.contains_key(k)) && (old(staged_db)@.contains_key(k) ==> final(staged_db)@[k] == old(
                staged_db,
            )@[k])) && (r matches Some(e) && e@ == (StagedNodeView {
            status: StagedEntryStatus::Added,
            node: NodeView::Directory(relative_path@),
        })),
        working@.contains_key(relative_path@) ==> {
            let had_conflict = old(conflicts)@.contains_key(relative_path@);
            let eff = effective_status(
                had_conflict && file_status.previous_file_node is Some,
                file_status.status,
            );
            let node = built_node_spec(
                relative_path@,
                file_status.hash.spec_value(),
                file_status.num_bytes,
                file_status.mtime_seconds,
                file_status.mtime_nanoseconds,
                opt_meta_view(file_status.previous_metadata),
                working@[relative_path@].bytes@,
            );
            &&& final(conflicts)@ == if had_conflict {
                old(conflicts)@.remove(relative_path@)
            } else {
                old(conflicts)@
            }
            &&& eff == StagedEntryStatus::Unmodified ==> final(staged_db)@ == old(staged_db)@
                && r is None
            &&& eff != StagedEntryStatus::Unmodified ==> {
                &&& final(staged_db)@.contains_key(relative_path@)
                &&& final(staged_db)@[relative_path@]@ == (StagedNodeView {
                    status: eff,
                    node: NodeView::File(node),
                })
                &&& forall|a: Seq<char>|
                    #![trigger ancestors_of(relative_path@).contains(a)]
                    ancestors_of(relative_path@).contains(a) ==> final(staged_db)@.contains_key(a)
                        && is_staged_dir(final(staged_db)@[a]@, a)
                &&& forall|k: Seq<char>|
                    #![trigger final(staged_db)@.contains_key(k)]
                    #![trigger final(staged_db)@[k]]
                    k != relative_path@ && !ancestors_of(relative_path@).contains(k)
                        ==> (final(staged_db)@.contains_key(k) == old(staged_db)@.contains_key(k))
                        && (old(staged_db)@.contains_key(k)
                            ==> final(staged_db)@[k] == old(staged_db)@[k])
                &&& r matches Some(e) && e@ == (StagedNodeView {
                    status: eff,
                    node: NodeView::File(node),
                })
            }
        },
{
    let file = match working.get(relative_path) {
        Some(f) => f,
        None => {
            let entry = StagedMerkleTreeNode::default_dir_from_path(relative_path);
            let result = entry.clone();
            staged_db.put(relative_path.to_owned(), entry);
            return Some(result);
        },
    };

    let mut status = file_status.status;
    if conflicts.contains_key(relative_path) {
        if file_status.previous_file_node.is_some() {
            status = StagedEntryStatus::Modified;
        }
        mark_conflict_as_resolved(conflicts, relative_path);
    } else {
        proof {
            assert(conflicts@ =~= old(conflicts)@);
        }
    }

    if matches!(status, StagedEntryStatus::Unmodified) {
        return None;
    }

    let file_name = crate::paths::path_file_name(relative_path);
    let file_extension = name_extension(file_name.as_str());
    let data_type = data_type_from_extension(file_extension.as_str());
    let mime_type = mime_type_for(data_type);

    let computed = get_file_metadata(&file.bytes, data_type);
    let metadata = match &file_status.previous_metadata {
        Some(previous_oxen_metadata) => maybe_construct_generic_metadata_for_tabular(
            computed,
            previous_oxen_metadata.clone(),
        ),
        None => computed,
    };

    let data_type = if metadata.is_none() && matches!(data_type, EntryDataType::Tabular) {
        EntryDataType::Binary
    } else {
        data_type
    };

    let content_hash = file_status.hash.to_u128();
    let (metadata_hash, combined_hash) = match &metadata {
        Some(m) => {
            let mh = get_metadata_hash(m);
            (Some(MerkleHash::new(mh)), MerkleHash::new(combine_hashes(mh, content_hash)))
        },
        None => (None, MerkleHash::new(content_hash)),
    };

    let file_node = FileNode {
        name: relative_path.to_owned(),
        hash: MerkleHash::new(content_hash),
        combined_hash,
        metadata_hash,
        num_bytes: file_status.num_bytes,
        last_modified_seconds: file_status.mtime_seconds,
        last_modified_nanoseconds: file_status.mtime_nanoseconds,
        data_type,
        metadata,
        mime_type,
        extension: file_extension,
    };

    p_add_file_node_to_staged_db(staged_db, relative_path, status, &file_node, seen_dirs)
}


/// Saturating addition on 64-bit counters.
pub open spec fn sat_add_spec(a: u64, b: u64) -> u64 {
    if a + b > u64::MAX {
        u64::MAX
    } else {
        (a + b) as u64
    }
}

/// Adds with saturation at the maximum.
pub fn sat_add(a: u64, b: u64) -> (r: u64)
    ensures
        r == sat_add_spec(a, b),
{
    if a > u64::MAX - b {
        u64::MAX
    } else {
        a + b
    }
}

/// How many files of each broad data type an add run staged.
#[derive(Clone, Copy, Debug, PartialEq, Eq, Structural, Default)]
pub struct DataTypeCounts {
    pub binary: u64,
    pub tabular: u64,
    pub image: u64,
    pub audio: u64,
    pub video: u64,
    pub text: u64,
}

impl DataTypeCounts {
    /// Bumps the counter of one data type, saturating.
    pub fn bump(&mut self, dt: EntryDataType)
        ensures
            *final(self) == old(self).bumped(dt),
    {
        match dt {
            EntryDataType::Binary => self.binary = sat_add(self.binary, 1),
            EntryDataType::Tabular => self.tabular = sat_add(self.tabular, 1),
            EntryDataType::Image => self.image = sat_add(self.image, 1),
            EntryDataType::Audio => self.audio = sat_add(self.audio, 1),
            EntryDataType::Video => self.video = sat_add(self.video, 1),
            EntryDataType::Text => self.text = sat_add(self.text, 1),
        }
    }

    /// The counts with one data type's counter bumped.
    pub open spec fn bumped(self, dt: EntryDataType) -> DataTypeCounts {
        match dt {
            EntryDataType::Binary => DataTypeCounts { binary: sat_add_spec(self.binary, 1), ..self },
            EntryDataType::Tabular => DataTypeCounts {
                tabular: sat_add_spec(self.tabular, 1),
                ..self
            },
            EntryDataType::Image => DataTypeCounts { image: sat_add_spec(self.image, 1), ..self },
            EntryDataType::Audio => DataTypeCounts { audio: sat_add_spec(self.audio, 1), ..self },
            EntryDataType::Video => DataTypeCounts { video: sat_add_spec(self.video, 1), ..self },
            EntryDataType::Text => DataTypeCounts { text: sat_add_spec(self.text, 1), ..self },
        }
    }
}

/// Cumulative statistics of one add run: staged files, their bytes, and the
/// staged files per data type.
#[derive(Clone, Copy, Debug, PartialEq, Eq, Structural, Default)]
pub struct CumulativeStats {
    pub total_files: u64,
    pub total_bytes: u64,
    pub data_type_counts: DataTypeCounts,
}

impl CumulativeStats {
    /// Folds another run's statistics into this one, saturating.
    pub fn add_assign(&mut self, other: CumulativeStats)
        ensures
            final(self).total_files == sat_add_spec(old(self).total_files, other.total_files),
            final(self).total_bytes == sat_add_spec(old(self).total_bytes, other.total_bytes),
            final(self).data_type_counts == (DataTypeCounts {
                binary: sat_add_spec(old(self).data_type_counts.binary, other.data_type_counts.binary),
                tabular: sat_add_spec(old(self).data_type_counts.tabular, other.data_type_counts.tabular),
                image: sat_add_spec(old(self).data_type_counts.image, other.data_type_counts.image),
                audio: sat_add_spec(old(self).data_type_counts.audio, other.data_type_counts.audio),
                video: sat_add_spec(old(self).data_type_counts.video, other.data_type_counts.video),
                text: sat_add_spec(old(self).data_type_counts.text, other.data_type_counts.text),
            }),
    {
        self.total_files = sat_add(self.total_files, other.total_files);
        self.total_bytes = sat_add(self.total_bytes, other.total_bytes);
        self.data_type_counts.binary = sat_add(
            self.data_type_counts.binary,
            other.data_type_counts.binary,
        );
        self.data_type_counts.tabular = sat_add(
            self.data_type_counts.tabular,
            other.data_type_counts.tabular,
        );
        self.data_type_counts.image = sat_add(
            self.data_type_counts.image,
            other.data_type_counts.image,
        );
        self.data_type_counts.audio = sat_add(
            self.data_type_counts.audio,
            other.data_type_counts.audio,
        );
        self.data_type_counts.video = sat_add(
            self.data_type_counts.video,
            other.data_type_counts.video,
        );
        self.data_type_counts.text = sat_add(
            self.data_type_counts.text,
            other.data_type_counts.text,
        );
    }
}

/// The file node the head commit tracks at a path.
pub open spec fn prior_of(head: Option<crate::tree::Tree>, k: Seq<char>) -> Option<FileNodeView> {
    match head {
        Some(t) => if t.files@.contains_key(k) {
            Some(t.files@[k]@)
        } else {
            None
        },
        None => None,
    }
}

/// Whether a working file lies in the subtree the walk covers.
pub open spec fn in_subtree(k: Seq<char>, d: Seq<char>) -> bool {
    ancestors_of(k).contains(d)
}

/// The status an add run records for a working file, with a pending
/// conflict at its path forcing a tracked file to `Modified`.
pub open spec fn walk_outcome(
    prior: Option<FileNodeView>,
    f: WorkingFile,
    had_conflict: bool,
) -> StagedEntryStatus {
    effective_status(had_conflict && prior is Some, status_of(prior, f.bytes@))
}

/// Whether the walk stages the `j`-th working file: it lies in the subtree
/// and its outcome is not `Unmodified`.
pub open spec fn walk_stages(
    w: Map<Seq<char>, WorkingFile>,
    keys: Seq<Seq<char>>,
    head: Option<crate::tree::Tree>,
    conflicts0: Map<Seq<char>, NodeMergeConflict>,
    d: Seq<char>,
    j: int,
) -> bool {
    let k = keys[j];
    in_subtree(k, d) && walk_outcome(
        prior_of(head, k),
        w[k],
        conflicts0.contains_key(k),
    ) != StagedEntryStatus::Unmodified
}

/// How many of the first `upto` working files the walk stages.
pub open spec fn changed_count(
    w: Map<Seq<char>, WorkingFile>,
    keys: Seq<Seq<char>>,
    head: Option<crate::tree::Tree>,
    conflicts0: Map<Seq<char>, NodeMergeConflict>,
    d: Seq<char>,
    upto: int,
) -> int
    decreases upto,
{
    if upto <= 0 {
        0
    } else {
        changed_count(w, keys, head, conflicts0, d, upto - 1) + if walk_stages(
            w,
            keys,
            head,
            conflicts0,
            d,
            upto - 1,
        ) {
            1int
        } else {
            0int
        }
    }
}

/// How many of the first `upto` working files the walk finds unchanged.
pub open spec fn unchanged_count(
    w: Map<Seq<char>, WorkingFile>,
    keys: Seq<Seq<char>>,
    head: Option<crate::tree::Tree>,
    conflicts0: Map<Seq<char>, NodeMergeConflict>,
    d: Seq<char>,
    upto: int,
) -> int
    decreases upto,
{
    if upto <= 0 {
        0
    } else {
        unchanged_count(w, keys, head, conflicts0, d, upto - 1) + if in_subtree(keys[upto - 1], d)
            && !walk_stages(w, keys, head, conflicts0, d, upto - 1) {
            1int
        } else {
            0int
        }
    }
}

/// The file node the add pipeline stages for the working file at `k`.
pub open spec fn staged_node_of(
    w: Map<Seq<char>, WorkingFile>,
    head: Option<crate::tree::Tree>,
    k: Seq<char>,
) -> FileNodeView {
    built_node_spec(
        k,
        hash_bytes_spec(w[k].bytes@),
        num_bytes_of(prior_of(head, k), w[k]),
        w[k].mtime_seconds,
        w[k].mtime_nanoseconds,
        match prior_of(head, k) {
            Some(n) => n.metadata,
            None => None,
        },
        w[k].bytes@,
    )
}

/// The bytes of the first `upto` staged files, summed with saturation.
pub open spec fn changed_bytes(
    w: Map<Seq<char>, WorkingFile>,
    keys: Seq<Seq<char>>,
    head: Option<crate::tree::Tree>,
    conflicts0: Map<Seq<char>, NodeMergeConflict>,
    d: Seq<char>,
    upto: int,
) -> u64
    decreases upto,
{
    if upto <= 0 {
        0
    } else {
        let rest = changed_bytes(w, keys, head, conflicts0, d, upto - 1);
        if walk_stages(w, keys, head, conflicts0, d, upto - 1) {
            sat_add_spec(rest, num_bytes_of(prior_of(head, keys[upto - 1]), w[keys[upto - 1]]))
        } else {
            rest
        }
    }
}

/// The per-data-type tallies of the first `upto` staged files.
pub open spec fn changed_type_counts(
    w: Map<Seq<char>, WorkingFile>,
    keys: Seq<Seq<char>>,
    head: Option<crate::tree::Tree>,
    conflicts0: Map<Seq<char>, NodeMergeConflict>,
    d: Seq<char>,
    upto: int,
) -> DataTypeCounts
    decreases upto,
{
    if upto <= 0 {
        DataTypeCounts { binary: 0, tabular: 0, image: 0, audio: 0, video: 0, text: 0 }
    } else {
        let rest = changed_type_counts(w, keys, head, conflicts0, d, upto - 1);
        if walk_stages(w, keys, head, conflicts0, d, upto - 1) {
            rest.bumped(staged_node_of(w, head, keys[upto - 1]).data_type)
        } else {
            rest
        }
    }
}

/// Idempotence of the walk: when every working file in the subtree already
/// matches the head commit — same content hash, no pending conflict — the
/// walk stages nothing: every subtree file counts as unchanged and none as
/// changed.
pub proof fn lemma_add_idempotent(
    w: Map<Seq<char>, WorkingFile>,
    keys: Seq<Seq<char>>,
    head: Option<crate::tree::Tree>,
    conflicts0: Map<Seq<char>, NodeMergeConflict>,
    d: Seq<char>,
    upto: int,
)
    requires
        forall|j: int|
            0 <= j < keys.len() && in_subtree(#[trigger] keys[j], d) ==> walk_outcome(
                prior_of(head, keys[j]),
                w[keys[j]],
                conflicts0.contains_key(keys[j]),
            ) == StagedEntryStatus::Unmodified,
        0 <= upto <= keys.len(),
    ensures
        changed_count(w, keys, head, conflicts0, d, upto) == 0,
        unchanged_count(w, keys, head, conflicts0, d, upto) == count_in_subtree(keys, d, upto),
    decreases upto,
{
    if upto > 0 {
        lemma_add_idempotent(w, keys, head, conflicts0, d, upto - 1);
    }
}

/// How many of the first `upto` keys lie in the subtree.
pub open spec fn count_in_subtree(keys: Seq<Seq<char>>, d: Seq<char>, upto: int) -> int
    decreases upto,
{
    if upto <= 0 {
        0
    } else {
        count_in_subtree(keys, d, upto - 1) + if in_subtree(keys[upto - 1], d) {
            1int
        } else {
            0int
        }
    }
}



/// Whether the expanded path list covers working file `k`: some listed path
/// is `k` itself, or is no working file and `k` lies under it.
pub open spec fn covers(w: Map<Seq<char>, WorkingFile>, paths: Seq<String>, k: Seq<char>) -> bool {
    exists|j: int|
        0 <= j < paths.len() && ((#[trigger] paths[j])@ == k || (!w.contains_key(paths[j]@)
            && in_subtree(k, paths[j]@)))
}

/// Whether a listed path is a removal request: it names no working file
/// and no working file lies under it.
pub open spec fn removal_request(
    w: Map<Seq<char>, WorkingFile>,
    paths: Seq<String>,
    q: Seq<char>,
) -> bool {
    &&& exists|j: int| 0 <= j < paths.len() && (#[trigger] paths[j])@ == q
    &&& !w.contains_key(q)
    &&& !(exists|k: Seq<char>| #[trigger] w.contains_key(k) && in_subtree(k, q))
}

/// Whether some removal request stages tracked file `k`: the request names
/// the file itself or an ancestor directory of it, so a vanished directory
/// is removed recursively.
pub open spec fn removal_target(
    w: Map<Seq<char>, WorkingFile>,
    head: Option<crate::tree::Tree>,
    paths: Seq<String>,
    k: Seq<char>,
) -> bool {
    &&& prior_of(head, k) is Some
    &&& k.len() > 0
    &&& exists|q: Seq<char>|
        #[trigger] removal_request(w, paths, q) && (k == q || in_subtree(k, q))
}

/// The staged entry a removal records: the tracked node, marked removed.
pub open spec fn removed_entry_view(
    head: Option<crate::tree::Tree>,
    q: Seq<char>,
) -> StagedNodeView {
    match prior_of(head, q) {
        Some(n) => StagedNodeView { status: StagedEntryStatus::Removed, node: NodeView::File(n) },
        None => StagedNodeView {
            status: StagedEntryStatus::Removed,
            node: NodeView::Directory(q),
        },
    }
}

/// Whether an add run over the listed paths may write at key `p`: the key
/// of a covered file that stages, an ancestor of one, or a removal target.
pub open spec fn add_touches(
    w: Map<Seq<char>, WorkingFile>,
    head: Option<crate::tree::Tree>,
    c0: Map<Seq<char>, NodeMergeConflict>,
    paths: Seq<String>,
    p: Seq<char>,
) -> bool {
    ||| exists|k: Seq<char>|
        #![auto]
        w.contains_key(k) && covers(w, paths, k) && walk_outcome(
            prior_of(head, k),
            w[k],
            c0.contains_key(k),
        ) != StagedEntryStatus::Unmodified && (p == k || ancestors_of(k).contains(p))
    ||| removal_target(w, head, paths, p)
}

/// The whole effect of one add run over an expanded path list, against the
/// staged database and conflict store it started from: every covered
/// working file carries its walk outcome, every removal target its removed
/// entry, conflicts shrink by exactly the covered tracked files, and
/// nothing outside those keys and their ancestor directories changes.
pub open spec fn add_run_effect(
    staged0: Map<Seq<char>, StagedMerkleTreeNode>,
    staged: Map<Seq<char>, StagedMerkleTreeNode>,
    conflicts0: Map<Seq<char>, NodeMergeConflict>,
    conflicts: Map<Seq<char>, NodeMergeConflict>,
    w: Map<Seq<char>, WorkingFile>,
    head: Option<crate::tree::Tree>,
    paths: Seq<String>,
) -> bool {
    &&& forall|k: Seq<char>|
        #![auto]
        w.contains_key(k) && covers(w, paths, k) ==> walk_file_done(
            staged0,
            staged,
            w,
            head,
            conflicts0,
            k,
        )
    &&& forall|k: Seq<char>|
        #![auto]
        w.contains_key(k) && covers(w, paths, k) ==> !conflicts.contains_key(k)
    &&& forall|q: Seq<char>|
        #![auto]
        removal_target(w, head, paths, q) ==> staged.contains_key(q) && staged[q]@
            == removed_entry_view(head, q)
    &&& forall|p: Seq<char>|
        #[trigger] conflicts.contains_key(p) ==> conflicts0.contains_key(p) && conflicts[p]
            == conflicts0[p]
    &&& forall|p: Seq<char>|
        conflicts0.contains_key(p) && !conflicts.contains_key(p) ==> w.contains_key(p) && covers(
            w,
            paths,
            p,
        )
    &&& forall|p: Seq<char>| #[trigger] staged0.contains_key(p) ==> staged.contains_key(p)
    &&& forall|p: Seq<char>|
        #[trigger] staged.contains_key(p) ==> (staged0.contains_key(p) && staged[p] == staged0[p])
            || add_touches(w, head, conflicts0, paths, p)
}

/// What expanding an add path yields: a plain path stays a singleton; a
/// glob names exactly the matching working files and tracked files.
pub open spec fn expansion_of(
    w: Map<Seq<char>, WorkingFile>,
    head: Option<crate::tree::Tree>,
    path: Seq<char>,
    ps: Seq<String>,
) -> bool {
    if !crate::paths::is_glob_spec(path) {
        ps.len() == 1 && ps[0]@ == path
    } else {
        &&& glob_pattern_ok(path)
        &&& forall|j: int|
            0 <= j < ps.len() ==> glob_match_of(path, (#[trigger] ps[j])@) && (w.contains_key(
                ps[j]@,
            ) || prior_of(head, ps[j]@) is Some)
        &&& forall|k: Seq<char>|
            #[trigger] w.contains_key(k) && glob_match_of(path, k) ==> exists|j: int|
                0 <= j < ps.len() && ps[j]@ == k
        &&& forall|k: Seq<char>|
            prior_of(head, k) is Some && #[trigger] glob_match_of(path, k) ==> exists|j: int|
                0 <= j < ps.len() && ps[j]@ == k
    }
}

/// The statistics an add over one expanded path reports: the staged file's
/// size and type for a single file, the walk's tallies for a directory,
/// nothing for an unchanged file or a removal.
pub open spec fn single_add_stats(
    w: Map<Seq<char>, WorkingFile>,
    keys: Seq<Seq<char>>,
    head: Option<crate::tree::Tree>,
    c0: Map<Seq<char>, NodeMergeConflict>,
    q: Seq<char>,
    r: CumulativeStats,
) -> bool {
    let zero = CumulativeStats {
        total_files: 0,
        total_bytes: 0,
        data_type_counts: DataTypeCounts {
            binary: 0,
            tabular: 0,
            image: 0,
            audio: 0,
            video: 0,
            text: 0,
        },
    };
    if w.contains_key(q) {
        if walk_outcome(prior_of(head, q), w[q], c0.contains_key(q))
            != StagedEntryStatus::Unmodified {
            r.total_files == 1 && r.total_bytes == num_bytes_of(prior_of(head, q), w[q])
                && r.data_type_counts == zero.data_type_counts.bumped(
                staged_node_of(w, head, q).data_type,
            )
        } else {
            r == zero
        }
    } else if exists|k: Seq<char>| #[trigger] w.contains_key(k) && in_subtree(k, q) {
        r.total_files == changed_count(w, keys, head, c0, q, keys.len() as int) && r.total_bytes
            == changed_bytes(w, keys, head, c0, q, keys.len() as int) && r.data_type_counts
            == changed_type_counts(w, keys, head, c0, q, keys.len() as int)
    } else {
        r == zero
    }
}

/// Walk outcomes only weaken as conflicts are resolved: an outcome that is
/// not `Unmodified` against the later conflict store was not `Unmodified`
/// against the earlier one either, and both agree then.
proof fn lemma_outcome_stable(
    w: Map<Seq<char>, WorkingFile>,
    head: Option<crate::tree::Tree>,
    c0: Map<Seq<char>, NodeMergeConflict>,
    c1: Map<Seq<char>, NodeMergeConflict>,
    k: Seq<char>,
)
    requires
        c1.contains_key(k) ==> c0.contains_key(k),
    ensures
        walk_outcome(prior_of(head, k), w[k], c1.contains_key(k)) != StagedEntryStatus::Unmodified
            ==> walk_outcome(prior_of(head, k), w[k], c1.contains_key(k)) == walk_outcome(
            prior_of(head, k),
            w[k],
            c0.contains_key(k),
        ),
{
}

/// Two recorded outcomes for one file compose: what the first pass wrote
/// and the second pass confirmed, judged against the original conflict
/// store, still stands.
proof fn lemma_walk_file_done_compose(
    staged0: Map<Seq<char>, StagedMerkleTreeNode>,
    s1: Map<Seq<char>, StagedMerkleTreeNode>,
    s2: Map<Seq<char>, StagedMerkleTreeNode>,
    w: Map<Seq<char>, WorkingFile>,
    head: Option<crate::tree::Tree>,
    c0: Map<Seq<char>, NodeMergeConflict>,
    c1: Map<Seq<char>, NodeMergeConflict>,
    k: Seq<char>,
)
    requires
        walk_file_done(staged0, s1, w, head, c0, k),
        walk_file_done(s1, s2, w, head, c1, k),
        c1.contains_key(k) ==> c0.contains_key(k),
        forall|a: Seq<char>|
            #![auto]
            ancestors_of(k).contains(a) && s1.contains_key(a) && crate::staged::is_staged_dir(
                s1[a]@,
                a,
            ) ==> s2.contains_key(a) && crate::staged::is_staged_dir(s2[a]@, a),
    ensures
        walk_file_done(staged0, s2, w, head, c0, k),
{
    reveal(walk_file_done);
    let eff0 = walk_outcome(prior_of(head, k), w[k], c0.contains_key(k));
    let eff1 = walk_outcome(prior_of(head, k), w[k], c1.contains_key(k));
    if eff0 == StagedEntryStatus::Unmodified {
        assert(eff1 == eff0);
    } else {
        if eff1 == StagedEntryStatus::Unmodified {
            assert(s1.contains_key(k) && s2.contains_key(k) && s2[k] == s1[k]);
        } else {
            assert(eff1 == eff0);
        }
    }
}

/// Classifies, ingests and stages one working-tree file against the head
/// commit: the single-file flow of the add pipeline.
///
/// Returns the staged entry, or `None` when the file is unchanged.
#[verifier::rlimit(100)]
#[verifier::spinoff_prover]
pub fn add_file_inner(
    working: &KvDb<WorkingFile>,
    maybe_head_tree: &Option<crate::tree::Tree>,
    version_store: &mut crate::version_store::VersionStore,
    staged_db: &mut KvDb<StagedMerkleTreeNode>,
    conflicts: &mut KvDb<NodeMergeConflict>,
    seen_dirs: &mut StringHashSet,
    path: &str,
) -> (r: Option<StagedMerkleTreeNode>)
    requires
        working.wf(),
        crate::repo::working_wf(working@),
        old(version_store).wf(),
        old(staged_db).wf(),
        old(conflicts).wf(),
        working@.contains_key(path@),
        maybe_head_tree matches Some(t) ==> t.wf(),
        crate::staged::seen_dirs_staged(old(seen_dirs)@, old(staged_db)@),
        forall|p: Seq<char>| #[trigger] old(seen_dirs)@.contains(p) ==> !working@.contains_key(p),
    ensures
        final(version_store).wf(),
        final(staged_db).wf(),
        final(conflicts).wf(),
        crate::staged::seen_dirs_staged(final(seen_dirs)@, final(staged_db)@),
        forall|p: Seq<char>|
            #[trigger] final(seen_dirs)@.contains(p) ==> old(seen_dirs)@.contains(p)
                || ancestors_of(path@).contains(p),
        forall|p: Seq<char>| #[trigger] final(seen_dirs)@.contains(p) ==> !working@.contains_key(p),
        ({
            let k = path@;
            let head = *maybe_head_tree;
            let f = working@[k];
            let had_conflict = old(conflicts)@.contains_key(k);
            let eff = walk_outcome(prior_of(head, k), f, old(conflicts)@.contains_key(k));
            &&& final(conflicts)@ == if had_conflict {
                old(conflicts)@.remove(k)
            } else {
                old(conflicts)@
            }
            &&& forall|h: u128|
                #[trigger] old(version_store).contents().contains_key(h) ==> final(version_store).contents().contains_key(h) && final(version_store).contents()[h] == old(version_store).contents()[h]
            &&& eff == StagedEntryStatus::Unmodified ==> final(staged_db)@ == old(staged_db)@
                && r is None && final(version_store).contents() == old(version_store).contents()
            &&& eff != StagedEntryStatus::Unmodified ==> {
                let node = built_node_spec(
                    k,
                    hash_bytes_spec(f.bytes@),
                    num_bytes_of(prior_of(head, k), f),
                    f.mtime_seconds,
                    f.mtime_nanoseconds,
                    match prior_of(head, k) {
                        Some(n) => n.metadata,
                        None => None,
                    },
                    f.bytes@,
                );
                &&& final(staged_db)@.contains_key(k)
                &&& final(staged_db)@[k]@ == (StagedNodeView {
                    status: eff,
                    node: NodeView::File(node),
                })
                &&& forall|a: Seq<char>|
                    #![trigger ancestors_of(k).contains(a)]
                    ancestors_of(k).contains(a) ==> final(staged_db)@.contains_key(a)
                        && is_staged_dir(final(staged_db)@[a]@, a)
                &&& forall|p: Seq<char>|
                    #![trigger final(staged_db)@.contains_key(p)]
                    #![trigger final(staged_db)@[p]]
                    p != k && !ancestors_of(k).contains(p) ==> (final(staged_db)@.contains_key(p)
                        == old(staged_db)@.contains_key(p)) && (old(staged_db)@.contains_key(p)
                        ==> final(staged_db)@[p] == old(staged_db)@[p])
                &&& r matches Some(e) && e@ == (StagedNodeView {
                    status: eff,
                    node: NodeView::File(node),
                })
                &&& status_of(prior_of(head, k), f.bytes@) != StagedEntryStatus::Unmodified
                    ==> final(version_store).contents().contains_key(hash_bytes_spec(f.bytes@))
            }
        }),
{
    let file = match working.get(path) {
        Some(f) => f,
        None => {
            proof {
                assert(false);
            }
            unreached()
        },
    };
    let parent = crate::paths::path_parent(path);
    let file_name = crate::paths::path_file_name(path);
    let dir_node: Option<DirNodeWithChildren> = match maybe_head_tree {
        Some(t) => Some(t.dir_with_children(parent.as_str())),
        None => None,
    };
    proof {
        crate::paths::lemma_file_name_no_slash(path@);
        crate::paths::lemma_join_parent_name(path@);
        assert(child_view(dir_node, file_name@) == prior_of(*maybe_head_tree, path@));
    }
    let file_status = determine_file_status(&dir_node, file_name.as_str(), path, file);
    if !matches!(file_status.status, StagedEntryStatus::Unmodified) {
        version_store.store_version(
            file_status.hash.to_u128(),
            crate::model::clone_bytes(&file.bytes),
        );
    }
    let r = process_add_file(working, conflicts, staged_db, seen_dirs, path, &file_status);
    proof {
        assert forall|p: Seq<char>| #[trigger] seen_dirs@.contains(p) implies !working@.contains_key(
            p,
        ) by {
            if !old(seen_dirs)@.contains(p) {
                assert(ancestors_of(path@).contains(p));
            }
        }
    }
    r
}


/// The staged database records the walk's outcome for one working file:
/// nothing for an unchanged file, otherwise the built file entry together
/// with directory entries for all its ancestors.
#[verifier::opaque]
pub open spec fn walk_file_done(
    staged0: Map<Seq<char>, StagedMerkleTreeNode>,
    staged: Map<Seq<char>, StagedMerkleTreeNode>,
    w: Map<Seq<char>, WorkingFile>,
    head: Option<crate::tree::Tree>,
    conflicts0: Map<Seq<char>, NodeMergeConflict>,
    k: Seq<char>,
) -> bool {
    let eff = walk_outcome(prior_of(head, k), w[k], conflicts0.contains_key(k));
    if eff == StagedEntryStatus::Unmodified {
        (staged.contains_key(k) == staged0.contains_key(k)) && (staged0.contains_key(k)
            ==> staged[k] == staged0[k])
    } else {
        staged.contains_key(k) && staged[k]@ == (StagedNodeView {
            status: eff,
            node: NodeView::File(
                built_node_spec(
                    k,
                    hash_bytes_spec(w[k].bytes@),
                    num_bytes_of(prior_of(head, k), w[k]),
                    w[k].mtime_seconds,
                    w[k].mtime_nanoseconds,
                    match prior_of(head, k) {
                        Some(n) => n.metadata,
                        None => None,
                    },
                    w[k].bytes@,
                ),
            ),
        }) && (forall|a: Seq<char>|
            #![trigger ancestors_of(k).contains(a)]
            ancestors_of(k).contains(a) ==> staged.contains_key(a) && is_staged_dir(staged[a]@, a))
    }
}

/// A recorded outcome survives later writes that touch neither the file's
/// path nor any path outside its ancestor directories' staged-dir shape.
proof fn lemma_walk_file_done_preserved(
    staged0: Map<Seq<char>, StagedMerkleTreeNode>,
    pre: Map<Seq<char>, StagedMerkleTreeNode>,
    post: Map<Seq<char>, StagedMerkleTreeNode>,
    w: Map<Seq<char>, WorkingFile>,
    head: Option<crate::tree::Tree>,
    conflicts0: Map<Seq<char>, NodeMergeConflict>,
    k: Seq<char>,
    touched: Seq<char>,
)
    requires
        walk_file_done(staged0, pre, w, head, conflicts0, k),
        k != touched,
        !ancestors_of(touched).contains(k),
        !ancestors_of(k).contains(touched),
        forall|p: Seq<char>|
            p != touched && !ancestors_of(touched).contains(p) ==> (post.contains_key(p)
                == pre.contains_key(p)) && (pre.contains_key(p) ==> post[p] == pre[p]),
        forall|a: Seq<char>|
            #![trigger ancestors_of(touched).contains(a)]
            ancestors_of(touched).contains(a) ==> post.contains_key(a) && crate::staged::is_staged_dir(
                post[a]@,
                a,
            ),
        walk_outcome(prior_of(head, k), w[k], conflicts0.contains_key(k))
            != StagedEntryStatus::Unmodified,
    ensures
        walk_file_done(staged0, post, w, head, conflicts0, k),
{
    reveal(walk_file_done);
    assert(pre.contains_key(k));
    assert(post.contains_key(k) && post[k] == pre[k]);
    assert forall|a: Seq<char>|
        #![trigger ancestors_of(k).contains(a)]
        ancestors_of(k).contains(a) implies post.contains_key(a) && crate::staged::is_staged_dir(
        post[a]@,
        a,
    ) by {
        assert(a != touched);
        if !ancestors_of(touched).contains(a) {
            assert(pre.contains_key(a) && crate::staged::is_staged_dir(pre[a]@, a));
        }
    }
}

/// Whether the walk, over its first `upto` files, resolved a pending
/// conflict at this path.
pub open spec fn conflict_resolved_upto(
    keys: Seq<Seq<char>>,
    head: Option<crate::tree::Tree>,
    d: Seq<char>,
    upto: int,
    p: Seq<char>,
) -> bool {
    exists|j: int| 0 <= j < upto && #[trigger] keys[j] == p && in_subtree(p, d)
}

/// Whether the walk already processed a staged write at this path.
pub open spec fn processed_file(keys: Seq<Seq<char>>, d: Seq<char>, upto: int, p: Seq<char>) -> bool {
    exists|j: int| 0 <= j < upto && #[trigger] keys[j] == p && in_subtree(p, d)
}

/// The walk over a directory: every working-tree file under the path is
/// classified against the head commit, changed blobs enter the version
/// store, and changed files gain staged entries together with their
/// ancestor directories' entries. A pending conflict at a tracked file's
/// path forces its entry to `Modified` and deletes the conflict record.
///
/// Returns the statistics of staged files and the count of unchanged files.
#[verifier::rlimit(100)]
#[verifier::spinoff_prover]
pub fn process_add_dir(
    working: &KvDb<WorkingFile>,
    maybe_head_tree: &Option<crate::tree::Tree>,
    version_store: &mut crate::version_store::VersionStore,
    staged_db: &mut KvDb<StagedMerkleTreeNode>,
    conflicts: &mut KvDb<NodeMergeConflict>,
    path: &str,
) -> (r: (CumulativeStats, u64))
    requires
        working.wf(),
        crate::repo::working_wf(working@),
        old(version_store).wf(),
        old(staged_db).wf(),
        old(conflicts).wf(),
        maybe_head_tree matches Some(t) ==> t.wf() && (forall|k: Seq<char>|
            #[trigger] t.files@.contains_key(k) ==> old(version_store).contents().contains_key(
                t.files@[k]@.hash,
            )),
    ensures
        final(version_store).wf(),
        final(staged_db).wf(),
        final(conflicts).wf(),
        ({
            let keys = working.keys_view();
            let w = working@;
            let head = *maybe_head_tree;
            let conflicts0 = old(conflicts)@;
            let d = path@;
            &&& forall|j: int|
                #![trigger keys[j]]
                0 <= j < keys.len() && in_subtree(keys[j], d) ==> walk_file_done(
                    old(staged_db)@,
                    final(staged_db)@,
                    w,
                    head,
                    conflicts0,
                    keys[j],
                )
            &&& forall|j: int|
                #![trigger keys[j]]
                0 <= j < keys.len() && in_subtree(keys[j], d)
                    ==> !final(conflicts)@.contains_key(keys[j])
            &&& forall|p: Seq<char>|
                #[trigger] final(conflicts)@.contains_key(p) ==> conflicts0.contains_key(p)
                    && final(conflicts)@[p] == conflicts0[p]
            &&& forall|p: Seq<char>|
                #![trigger conflicts0.contains_key(p), final(conflicts)@.contains_key(p)]
                conflicts0.contains_key(p) && !final(conflicts)@.contains_key(p)
                    ==> w.contains_key(p) && in_subtree(p, d)
            &&& forall|h: u128|
                #[trigger] old(version_store).contents().contains_key(h) ==> final(version_store).contents().contains_key(h) && final(version_store).contents()[h] == old(version_store).contents()[h]
            &&& forall|k: Seq<char>|
                #![auto]
                w.contains_key(k) && in_subtree(k, d) && status_of(
                    prior_of(head, k),
                    w[k].bytes@,
                ) != StagedEntryStatus::Unmodified ==> final(version_store).contents().contains_key(
                    hash_bytes_spec(w[k].bytes@),
                )
            &&& forall|p: Seq<char>|
                #[trigger] old(staged_db)@.contains_key(p) ==> final(staged_db)@.contains_key(p)
            &&& forall|p: Seq<char>|
                #[trigger] final(staged_db)@.contains_key(p) ==> (old(staged_db)@.contains_key(p)
                    && final(staged_db)@[p] == old(staged_db)@[p]) || (w.contains_key(p)
                    && in_subtree(p, d) && walk_outcome(
                    prior_of(head, p),
                    w[p],
                    conflicts0.contains_key(p),
                ) != StagedEntryStatus::Unmodified) || (is_staged_dir(final(staged_db)@[p]@, p)
                    && exists|k: Seq<char>|
                    #![auto]
                    w.contains_key(k) && in_subtree(k, d) && walk_outcome(
                        prior_of(head, k),
                        w[k],
                        conflicts0.contains_key(k),
                    ) != StagedEntryStatus::Unmodified && ancestors_of(k).contains(p))
            &&& r.0.total_files == changed_count(w, keys, head, conflicts0, d, keys.len() as int)
            &&& r.0.total_bytes == changed_bytes(w, keys, head, conflicts0, d, keys.len() as int)
            &&& r.0.data_type_counts == changed_type_counts(
                w,
                keys,
                head,
                conflicts0,
                d,
                keys.len() as int,
            )
            &&& r.1 == unchanged_count(w, keys, head, conflicts0, d, keys.len() as int)
        }),
{
    let ghost w = working@;
    let ghost keys = working.keys_view();
    let ghost head = *maybe_head_tree;
    let ghost conflicts0 = conflicts@;
    let ghost d = path@;

    let mut seen_dirs = StringHashSet::new();
    let mut stats = CumulativeStats {
        total_files: 0,
        total_bytes: 0,
        data_type_counts: DataTypeCounts {
            binary: 0,
            tabular: 0,
            image: 0,
            audio: 0,
            video: 0,
            text: 0,
        },
    };
    let mut unchanged: u64 = 0;

    let n = working.num_keys();
    let mut i: usize = 0;
    while i < n
        invariant
            working.wf(),
            crate::repo::working_wf(working@),
            version_store.wf(),
            staged_db.wf(),
            conflicts.wf(),
            maybe_head_tree matches Some(t) ==> t.wf() && (forall|k: Seq<char>|
                #[trigger] t.files@.contains_key(k) ==> old(version_store).contents().contains_key(
                    t.files@[k]@.hash,
                )),
            w == working@,
            keys == working.keys_view(),
            head == *maybe_head_tree,
            conflicts0 == old(conflicts)@,
            d == path@,
            n == keys.len(),
            i <= n,
            forall|j: int|
                #![trigger keys[j]]
                0 <= j < i && in_subtree(keys[j], d) ==> walk_file_done(
                    old(staged_db)@,
                    staged_db@,
                    w,
                    head,
                    conflicts0,
                    keys[j],
                ),
            forall|j: int|
                #![trigger keys[j]]
                0 <= j < i && in_subtree(keys[j], d) ==> !conflicts@.contains_key(keys[j]),
            forall|p: Seq<char>|
                #[trigger] conflicts@.contains_key(p) ==> conflicts0.contains_key(p) && conflicts@[p]
                    == conflicts0[p],
            forall|p: Seq<char>|
                conflicts0.contains_key(p) && !conflict_resolved_upto(keys, head, d, i as int, p)
                    ==> conflicts@.contains_key(p),
            forall|j: int|
                i <= j < n ==> (staged_db@.contains_key(#[trigger] keys[j]) == old(staged_db)@.contains_key(keys[j])) && (old(staged_db)@.contains_key(keys[j])
                    ==> staged_db@[keys[j]] == old(staged_db)@[keys[j]]),
            forall|h: u128|
                #[trigger] old(version_store).contents().contains_key(h)
                    ==> version_store.contents().contains_key(h) && version_store.contents()[h]
                    == old(version_store).contents()[h],
            crate::staged::seen_dirs_staged(seen_dirs@, staged_db@),
            forall|p: Seq<char>| #[trigger] seen_dirs@.contains(p) ==> !working@.contains_key(p),
            forall|p: Seq<char>|
                #[trigger] old(staged_db)@.contains_key(p) ==> staged_db@.contains_key(p),
            forall|p: Seq<char>|
                #[trigger] staged_db@.contains_key(p) ==> (old(staged_db)@.contains_key(p)
                    && staged_db@[p] == old(staged_db)@[p]) || (w.contains_key(p) && in_subtree(
                    p,
                    d,
                ) && walk_outcome(prior_of(head, p), w[p], conflicts0.contains_key(p))
                    != StagedEntryStatus::Unmodified) || (is_staged_dir(staged_db@[p]@, p)
                    && exists|k: Seq<char>|
                    #![auto]
                    w.contains_key(k) && in_subtree(k, d) && walk_outcome(
                        prior_of(head, k),
                        w[k],
                        conflicts0.contains_key(k),
                    ) != StagedEntryStatus::Unmodified && ancestors_of(k).contains(p)),
            forall|j: int|
                #![auto]
                0 <= j < i && in_subtree(keys[j], d) && status_of(
                    prior_of(head, keys[j]),
                    w[keys[j]].bytes@,
                ) != StagedEntryStatus::Unmodified ==> version_store.contents().contains_key(
                    hash_bytes_spec(w[keys[j]].bytes@),
                ),
            stats.total_files == changed_count(w, keys, head, conflicts0, d, i as int),
            stats.total_bytes == changed_bytes(w, keys, head, conflicts0, d, i as int),
            stats.data_type_counts == changed_type_counts(w, keys, head, conflicts0, d, i as int),
            unchanged == unchanged_count(w, keys, head, conflicts0, d, i as int),
        decreases n - i,
    {
        let key = working.key_at(i).clone();
        proof {
            working.lemma_listed_key_contained(i as int);
        }
        if crate::tree::path_is_ancestor(path, key.as_str()) {
            let ghost conflicts_pre = conflicts@;
            let ghost staged_pre = staged_db@;
            let entry = add_file_inner(
                working,
                maybe_head_tree,
                version_store,
                staged_db,
                conflicts,
                &mut seen_dirs,
                key.as_str(),
            );
            proof {
                assert(conflicts_pre.contains_key(key@) == conflicts0.contains_key(key@)) by {
                    if conflicts0.contains_key(key@) {
                        if conflict_resolved_upto(keys, head, d, i as int, key@) {
                            let j = choose|j: int|
                                0 <= j < i && #[trigger] keys[j] == key@ && in_subtree(key@, d);
                            working.lemma_keys_distinct(j, i as int);
                        }
                    }
                }
            }
            match entry {
                Some(e) => {
                    proof {
                        assert(walk_stages(w, keys, head, conflicts0, d, i as int));
                        assert(changed_count(w, keys, head, conflicts0, d, i + 1) == changed_count(
                            w,
                            keys,
                            head,
                            conflicts0,
                            d,
                            i as int,
                        ) + 1);
                        assert(unchanged_count(w, keys, head, conflicts0, d, i + 1)
                            == unchanged_count(w, keys, head, conflicts0, d, i as int));
                        lemma_changed_count_bound(w, keys, head, conflicts0, d, i as int);
                        assert(stats.total_files < u64::MAX);
                        assert(changed_bytes(w, keys, head, conflicts0, d, i + 1) == sat_add_spec(
                            changed_bytes(w, keys, head, conflicts0, d, i as int),
                            num_bytes_of(prior_of(head, key@), w[key@]),
                        ));
                        assert(changed_type_counts(w, keys, head, conflicts0, d, i + 1)
                            == changed_type_counts(w, keys, head, conflicts0, d, i as int).bumped(
                            staged_node_of(w, head, key@).data_type,
                        ));
                    }
                    match &e.node {
                        crate::model::MerkleTreeNode::File(file_node) => {
                            proof {
                                assert(file_node@ == staged_node_of(w, head, key@));
                            }
                            stats.total_files = sat_add(stats.total_files, 1);
                            stats.total_bytes = sat_add(stats.total_bytes, file_node.num_bytes);
                            stats.data_type_counts.bump(file_node.data_type);
                        },
                        _ => {
                            proof {
                                assert(false);
                            }
                        },
                    }
                },
                None => {
                    proof {
                        assert(!walk_stages(w, keys, head, conflicts0, d, i as int));
                        assert(changed_count(w, keys, head, conflicts0, d, i + 1) == changed_count(
                            w,
                            keys,
                            head,
                            conflicts0,
                            d,
                            i as int,
                        ));
                        assert(changed_bytes(w, keys, head, conflicts0, d, i + 1) == changed_bytes(
                            w,
                            keys,
                            head,
                            conflicts0,
                            d,
                            i as int,
                        ));
                        assert(changed_type_counts(w, keys, head, conflicts0, d, i + 1)
                            == changed_type_counts(w, keys, head, conflicts0, d, i as int));
                        assert(unchanged_count(w, keys, head, conflicts0, d, i + 1)
                            == unchanged_count(w, keys, head, conflicts0, d, i as int) + 1);
                        assert(unchanged <= i) by {
                            lemma_unchanged_count_bound(w, keys, head, conflicts0, d, i as int);
                        }
                    }
                    unchanged = unchanged + 1;
                },
            }
            proof {
                let ghost eff_key = walk_outcome(
                    prior_of(head, key@),
                    w[key@],
                    conflicts0.contains_key(key@),
                );
                assert forall|p: Seq<char>| #[trigger] staged_db@.contains_key(p) implies (old(
                    staged_db,
                )@.contains_key(p) && staged_db@[p] == old(staged_db)@[p]) || (w.contains_key(p)
                    && in_subtree(p, d) && walk_outcome(
                    prior_of(head, p),
                    w[p],
                    conflicts0.contains_key(p),
                ) != StagedEntryStatus::Unmodified) || (is_staged_dir(staged_db@[p]@, p)
                    && exists|k: Seq<char>|
                    #![auto]
                    w.contains_key(k) && in_subtree(k, d) && walk_outcome(
                        prior_of(head, k),
                        w[k],
                        conflicts0.contains_key(k),
                    ) != StagedEntryStatus::Unmodified && ancestors_of(k).contains(p)) by {
                    if eff_key != StagedEntryStatus::Unmodified {
                        if p == key@ {
                        } else if ancestors_of(key@).contains(p) {
                            assert(w.contains_key(key@) && in_subtree(key@, d) && walk_outcome(
                                prior_of(head, key@),
                                w[key@],
                                conflicts0.contains_key(key@),
                            ) != StagedEntryStatus::Unmodified && ancestors_of(key@).contains(p));
                        } else {
                            assert(staged_pre.contains_key(p) && staged_db@[p] == staged_pre[p]);
                        }
                    } else {
                        assert(staged_db@ == staged_pre);
                    }
                }
                assert forall|p: Seq<char>|
                    #[trigger] old(staged_db)@.contains_key(p) implies staged_db@.contains_key(
                    p,
                ) by {
                    if eff_key != StagedEntryStatus::Unmodified {
                        if p != key@ && !ancestors_of(key@).contains(p) {
                            assert(staged_pre.contains_key(p));
                        }
                    } else {
                        assert(staged_db@ == staged_pre);
                    }
                }
                assert forall|j: int|
                    i + 1 <= j < n implies (staged_db@.contains_key(#[trigger] keys[j]) == old(staged_db)@.contains_key(keys[j])) && (old(staged_db)@.contains_key(keys[j])
                    ==> staged_db@[keys[j]] == old(staged_db)@[keys[j]]) by {
                    working.lemma_keys_distinct(j, i as int);
                    working.lemma_listed_key_contained(j);
                    if walk_outcome(prior_of(head, key@), w[key@], conflicts0.contains_key(key@))
                        != StagedEntryStatus::Unmodified {
                        assert(!ancestors_of(key@).contains(keys[j]));
                    }
                }
                assert forall|j: int|
                    #![trigger keys[j]]
                    0 <= j < i + 1 && in_subtree(keys[j], d) implies walk_file_done(
                    old(staged_db)@,
                    staged_db@,
                    w,
                    head,
                    conflicts0,
                    keys[j],
                ) by {
                    let k = keys[j];
                    let eff = walk_outcome(prior_of(head, k), w[k], conflicts0.contains_key(k));
                    if j == i {
                        reveal(walk_file_done);
                    } else {
                        working.lemma_keys_distinct(j, i as int);
                        assert(k != key@);
                        working.lemma_listed_key_contained(j);
                        assert(working@.contains_key(k));
                        assert(!ancestors_of(key@).contains(k));
                        if eff == StagedEntryStatus::Unmodified {
                            reveal(walk_file_done);
                            assert(walk_file_done(old(staged_db)@, staged_pre, w, head, conflicts0, k));
                            if walk_outcome(
                                prior_of(head, key@),
                                w[key@],
                                conflicts0.contains_key(key@),
                            ) != StagedEntryStatus::Unmodified {
                                assert(!ancestors_of(key@).contains(k));
                            }
                        } else {
                            if walk_outcome(
                                prior_of(head, key@),
                                w[key@],
                                conflicts0.contains_key(key@),
                            ) != StagedEntryStatus::Unmodified {
                                lemma_walk_file_done_preserved(
                                    old(staged_db)@,
                                    staged_pre,
                                    staged_db@,
                                    w,
                                    head,
                                    conflicts0,
                                    k,
                                    key@,
                                );
                            } else {
                                reveal(walk_file_done);
                            }
                        }
                    }
                }
            }
        } else {
            proof {
                assert(!in_subtree(keys[i as int], d));
                assert(changed_count(w, keys, head, conflicts0, d, i + 1) == changed_count(
                    w,
                    keys,
                    head,
                    conflicts0,
                    d,
                    i as int,
                ));
                assert(unchanged_count(w, keys, head, conflicts0, d, i + 1) == unchanged_count(
                    w,
                    keys,
                    head,
                    conflicts0,
                    d,
                    i as int,
                ));
                assert(changed_bytes(w, keys, head, conflicts0, d, i + 1) == changed_bytes(
                    w,
                    keys,
                    head,
                    conflicts0,
                    d,
                    i as int,
                ));
                assert(changed_type_counts(w, keys, head, conflicts0, d, i + 1)
                    == changed_type_counts(w, keys, head, conflicts0, d, i as int));
            }
        }
        i = i + 1;
    }
    proof {
        assert forall|p: Seq<char>|
            conflicts0.contains_key(p) && !conflicts@.contains_key(p) implies w.contains_key(p)
            && in_subtree(p, d) by {
            assert(conflict_resolved_upto(keys, head, d, n as int, p));
            let j = choose|j: int| 0 <= j < n && #[trigger] keys[j] == p && in_subtree(p, d);
            working.lemma_listed_key_contained(j);
        }
        assert forall|k: Seq<char>|
            #![auto]
            w.contains_key(k) && in_subtree(k, d) && status_of(prior_of(head, k), w[k].bytes@)
                != StagedEntryStatus::Unmodified implies version_store.contents().contains_key(
            hash_bytes_spec(w[k].bytes@),
        ) by {
            working.lemma_contained_key_listed(k);
            let j = choose|j: int| 0 <= j < keys.len() && keys[j] == k;
        }
    }
    (stats, unchanged)
}

/// No prefix stages more files than its length.
proof fn lemma_changed_count_bound(
    w: Map<Seq<char>, WorkingFile>,
    keys: Seq<Seq<char>>,
    head: Option<crate::tree::Tree>,
    conflicts0: Map<Seq<char>, NodeMergeConflict>,
    d: Seq<char>,
    upto: int,
)
    ensures
        changed_count(w, keys, head, conflicts0, d, upto) <= if upto <= 0 {
            0
        } else {
            upto
        },
        changed_count(w, keys, head, conflicts0, d, upto) >= 0,
    decreases upto,
{
    if upto > 0 {
        lemma_changed_count_bound(w, keys, head, conflicts0, d, upto - 1);
    }
}

/// No prefix holds more unchanged files than its length.
proof fn lemma_unchanged_count_bound(
    w: Map<Seq<char>, WorkingFile>,
    keys: Seq<Seq<char>>,
    head: Option<crate::tree::Tree>,
    conflicts0: Map<Seq<char>, NodeMergeConflict>,
    d: Seq<char>,
    upto: int,
)
    ensures
        unchanged_count(w, keys, head, conflicts0, d, upto) <= if upto <= 0 {
            0
        } else {
            upto
        },
    decreases upto,
{
    if upto > 0 {
        lemma_unchanged_count_bound(w, keys, head, conflicts0, d, upto - 1);
    }
}


/// Whether a string is a well-formed glob pattern.
pub uninterp spec fn glob_pattern_ok(pat: Seq<char>) -> bool;

/// Whether a path matches a glob pattern.
pub uninterp spec fn glob_match_of(pat: Seq<char>, text: Seq<char>) -> bool;

/// Relies on glob's `Pattern::new` and `Pattern::matches`: compiles a
/// Unix-shell-style pattern — `None` exactly when the pattern is malformed —
/// and reports whether the path matches it. The outcome depends on the
/// pattern and the path alone.
#[verifier::external_body]
fn glob_matches(pattern: &str, text: &str) -> (r: Option<bool>)
    ensures
        r is Some == glob_pattern_ok(pattern@),
        r matches Some(b) ==> b == glob_match_of(pattern@, text@),
{
    match glob::Pattern::new(pattern) {
        Ok(p) => Some(p.matches(text)),
        Err(_) => None,
    }
}

/// Expands an add path: a glob pattern is matched both against the working
/// tree and against the head commit's entries — so a glob can stage the
/// removal of tracked files that no longer exist on disk — and a plain path
/// stays a single path.
#[verifier::rlimit(100)]
#[verifier::spinoff_prover]
pub fn expand_add_paths(
    working: &KvDb<WorkingFile>,
    maybe_head_tree: &Option<crate::tree::Tree>,
    path: &str,
) -> (r: Result<Vec<String>, OxenError>)
    requires
        working.wf(),
        maybe_head_tree matches Some(t) ==> t.wf(),
    ensures
        match r {
            Ok(v) => {
                &&& !crate::paths::is_glob_spec(path@) ==> v@.len() == 1 && v@[0]@ == path@
                &&& crate::paths::is_glob_spec(path@) ==> {
                    &&& glob_pattern_ok(path@)
                    &&& forall|j: int|
                        0 <= j < v@.len() ==> glob_match_of(path@, (#[trigger] v@[j])@) && (
                        working@.contains_key(v@[j]@) || prior_of(*maybe_head_tree, v@[j]@) is Some)
                    &&& forall|k: Seq<char>|
                        #[trigger] working@.contains_key(k) && glob_match_of(path@, k)
                            ==> exists|j: int| 0 <= j < v@.len() && v@[j]@ == k
                    &&& forall|k: Seq<char>|
                        prior_of(*maybe_head_tree, k) is Some && #[trigger] glob_match_of(path@, k)
                            ==> exists|j: int| 0 <= j < v@.len() && v@[j]@ == k
                }
            },
            Err(e) => e matches OxenError::InvalidGlobPattern(_) && crate::paths::is_glob_spec(
                path@,
            ) && !glob_pattern_ok(path@),
        },
{
    if !crate::paths::is_glob_path(path) {
        let mut v: Vec<String> = Vec::new();
        v.push(path.to_owned());
        return Ok(v);
    }
    match glob_matches(path, "") {
        Some(_) => {},
        None => {
            return Err(OxenError::InvalidGlobPattern(path.to_owned()));
        },
    }
    let mut v: Vec<String> = Vec::new();
    let mut seen = StringHashSet::new();
    let n = working.num_keys();
    let mut i: usize = 0;
    while i < n
        invariant
            working.wf(),
            n == working.keys_view().len(),
            i <= n,
            crate::paths::is_glob_spec(path@),
            glob_pattern_ok(path@),
            forall|j: int|
                0 <= j < v@.len() ==> glob_match_of(path@, (#[trigger] v@[j])@)
                    && working@.contains_key(v@[j]@),
            forall|j: int| 0 <= j < v@.len() ==> seen@.contains((#[trigger] v@[j])@),
            forall|p: Seq<char>|
                #[trigger] seen@.contains(p) ==> exists|j: int| 0 <= j < v@.len() && v@[j]@ == p,
            forall|j: int|
                0 <= j < i && glob_match_of(path@, #[trigger] working.keys_view()[j])
                    ==> seen@.contains(working.keys_view()[j]),
        decreases n - i,
    {
        let key = working.key_at(i);
        match glob_matches(path, key.as_str()) {
            Some(true) => {
                proof {
                    working.lemma_listed_key_contained(i as int);
                }
                if !seen.contains(key.as_str()) {
                    let ghost pre_seen = seen@;
                    let ghost pre_v = v@;
                    v.push(key.clone());
                    let _ins = seen.insert(key.clone());
                    proof {
                        assert forall|p: Seq<char>| #[trigger] seen@.contains(p) implies exists|j: int|
                            0 <= j < v@.len() && v@[j]@ == p by {
                            if p == key@ {
                                assert(v@[v@.len() - 1]@ == p);
                            } else {
                                assert(pre_seen.contains(p));
                                let j = choose|j: int| 0 <= j < pre_v.len() && pre_v[j]@ == p;
                                assert(v@[j]@ == p);
                            }
                        }
                    }
                }
            },
            Some(false) => {},
            None => {
                return Err(OxenError::InvalidGlobPattern(path.to_owned()));
            },
        }
        i = i + 1;
    }
    proof {
        assert forall|k: Seq<char>|
            #[trigger] working@.contains_key(k) && glob_match_of(path@, k) implies seen@.contains(
            k,
        ) by {
            working.lemma_contained_key_listed(k);
        }
    }
    match maybe_head_tree {
        Some(t) => {
            let ghost v_low = v@.len();
            let nh = t.files.num_keys();
            let mut m: usize = 0;
            while m < nh
                invariant
                    working.wf(),
                    t.wf(),
                    nh == t.files.keys_view().len(),
                    m <= nh,
                    crate::paths::is_glob_spec(path@),
                    glob_pattern_ok(path@),
                    forall|j: int|
                        0 <= j < v@.len() ==> glob_match_of(path@, (#[trigger] v@[j])@) && (
                        working@.contains_key(v@[j]@) || t.files@.contains_key(v@[j]@)),
                    forall|j: int| 0 <= j < v@.len() ==> seen@.contains((#[trigger] v@[j])@),
                    forall|p: Seq<char>|
                        #[trigger] seen@.contains(p) ==> exists|j: int|
                            0 <= j < v@.len() && v@[j]@ == p,
                    forall|k: Seq<char>|
                        #[trigger] working@.contains_key(k) && glob_match_of(path@, k)
                            ==> seen@.contains(k),
                    forall|j: int|
                        0 <= j < m && glob_match_of(path@, #[trigger] t.files.keys_view()[j])
                            ==> seen@.contains(t.files.keys_view()[j]),
                decreases nh - m,
            {
                let key = t.files.key_at(m);
                match glob_matches(path, key.as_str()) {
                    Some(true) => {
                        proof {
                            t.files.lemma_listed_key_contained(m as int);
                        }
                        if !seen.contains(key.as_str()) {
                            let ghost pre_seen = seen@;
                            let ghost pre_v = v@;
                            v.push(key.clone());
                            let _ins = seen.insert(key.clone());
                            proof {
                                assert forall|p: Seq<char>| #[trigger] seen@.contains(p) implies exists|j: int|
                                    0 <= j < v@.len() && v@[j]@ == p by {
                                    if p == key@ {
                                        assert(v@[v@.len() - 1]@ == p);
                                    } else {
                                        assert(pre_seen.contains(p));
                                        let j = choose|j: int|
                                            0 <= j < pre_v.len() && pre_v[j]@ == p;
                                        assert(v@[j]@ == p);
                                    }
                                }
                            }
                        }
                    },
                    Some(false) => {},
                    None => {
                        proof {
                            assert(false);
                        }
                        unreached()
                    },
                }
                m = m + 1;
            }
            proof {
                assert forall|k: Seq<char>|
                    #[trigger] t.files@.contains_key(k) && glob_match_of(path@, k) implies seen@.contains(
                    k,
                ) by {
                    t.files.lemma_contained_key_listed(k);
                }
            }
        },
        None => {},
    }
    Ok(v)
}

/// Stages a removed entry for every tracked file a removal request covers:
/// the request's own path when the head commit tracks a file there, and
/// every tracked file under it, so a vanished directory is removed
/// recursively.
fn stage_removals(
    staged_db: &mut KvDb<StagedMerkleTreeNode>,
    maybe_head_tree: &Option<crate::tree::Tree>,
    path: &str,
)
    requires
        old(staged_db).wf(),
        maybe_head_tree matches Some(t) ==> t.wf(),
    ensures
        final(staged_db).wf(),
        forall|k: Seq<char>|
            #![auto]
            prior_of(*maybe_head_tree, k) is Some && (k == path@ || in_subtree(k, path@))
                && k.len() > 0 ==> final(staged_db)@.contains_key(k) && final(staged_db)@[k]@
                == removed_entry_view(*maybe_head_tree, k),
        forall|p: Seq<char>|
            #[trigger] final(staged_db)@.contains_key(p) ==> (old(staged_db)@.contains_key(p)
                && final(staged_db)@[p] == old(staged_db)@[p]) || (prior_of(
                *maybe_head_tree,
                p,
            ) is Some && (p == path@ || in_subtree(p, path@)) && p.len() > 0
                && final(staged_db)@[p]@ == removed_entry_view(*maybe_head_tree, p)),
        forall|p: Seq<char>|
            #[trigger] old(staged_db)@.contains_key(p) ==> final(staged_db)@.contains_key(p),
{
    let t = match maybe_head_tree {
        Some(t) => t,
        None => {
            return ;
        },
    };
    let nh = t.files.num_keys();
    let mut mi: usize = 0;
    while mi < nh
        invariant
            staged_db.wf(),
            t.wf(),
            nh == t.files.keys_view().len(),
            mi <= nh,
            forall|jj: int|
                #![auto]
                0 <= jj < mi && (t.files.keys_view()[jj] == path@ || in_subtree(
                    t.files.keys_view()[jj],
                    path@,
                )) && t.files.keys_view()[jj].len() > 0 ==> staged_db@.contains_key(
                    t.files.keys_view()[jj],
                ) && staged_db@[t.files.keys_view()[jj]]@ == (StagedNodeView {
                    status: StagedEntryStatus::Removed,
                    node: NodeView::File(t.files@[t.files.keys_view()[jj]]@),
                }),
            forall|p: Seq<char>|
                #[trigger] staged_db@.contains_key(p) ==> (old(staged_db)@.contains_key(p)
                    && staged_db@[p] == old(staged_db)@[p]) || (t.files@.contains_key(p) && (p
                    == path@ || in_subtree(p, path@)) && p.len() > 0 && staged_db@[p]@
                    == (StagedNodeView {
                    status: StagedEntryStatus::Removed,
                    node: NodeView::File(t.files@[p]@),
                })),
            forall|p: Seq<char>|
                #[trigger] old(staged_db)@.contains_key(p) ==> staged_db@.contains_key(p),
        decreases nh - mi,
    {
        let hk = t.files.key_at(mi).clone();
        proof {
            t.files.lemma_listed_key_contained(mi as int);
        }
        let is_under = crate::strings::str_eq(hk.as_str(), path) || crate::tree::path_is_ancestor(
            path,
            hk.as_str(),
        );
        if is_under && hk.as_str().unicode_len() > 0 {
            let node = match t.get_file(hk.as_str()) {
                Some(n) => n.clone(),
                None => {
                    proof {
                        assert(false);
                    }
                    unreached()
                },
            };
            let entry = StagedMerkleTreeNode {
                status: StagedEntryStatus::Removed,
                node: crate::model::MerkleTreeNode::File(node),
            };
            staged_db.put(hk.clone(), entry);
        }
        mi = mi + 1;
    }
    proof {
        assert forall|k: Seq<char>|
            #![auto]
            prior_of(*maybe_head_tree, k) is Some && (k == path@ || in_subtree(k, path@))
                && k.len() > 0 implies staged_db@.contains_key(k) && staged_db@[k]@
            == removed_entry_view(*maybe_head_tree, k) by {
            t.files.lemma_contained_key_listed(k);
            let jj = choose|jj: int|
                0 <= jj < t.files.keys_view().len() && t.files.keys_view()[jj] == k;
        }
    }
}

/// Applies one removal request of an add run: stages removed entries for
/// every tracked file the request covers, and carries the run's recorded
/// effect forward over the extended path list.
#[verifier::rlimit(100)]
#[verifier::spinoff_prover]
fn apply_removal_request(
    working: &KvDb<WorkingFile>,
    maybe_head_tree: &Option<crate::tree::Tree>,
    staged_db: &mut KvDb<StagedMerkleTreeNode>,
    conflicts: &KvDb<NodeMergeConflict>,
    seen_dirs: &StringHashSet,
    path: &str,
    Ghost(staged0): Ghost<Map<Seq<char>, StagedMerkleTreeNode>>,
    Ghost(c0): Ghost<Map<Seq<char>, NodeMergeConflict>>,
    Ghost(prefix): Ghost<Seq<String>>,
    Ghost(prefix1): Ghost<Seq<String>>,
)
    requires
        working.wf(),
        crate::repo::working_wf(working@),
        old(staged_db).wf(),
        maybe_head_tree matches Some(t) ==> t.wf(),
        !working@.contains_key(path@),
        !(exists|k: Seq<char>| #[trigger] working@.contains_key(k) && in_subtree(k, path@)),
        prefix1.len() == prefix.len() + 1,
        prefix1.drop_last() == prefix,
        prefix1.last()@ == path@,
        add_run_effect(
            staged0,
            old(staged_db)@,
            c0,
            conflicts@,
            working@,
            *maybe_head_tree,
            prefix,
        ),
        forall|p: Seq<char>|
            c0.contains_key(p) && !conflicts@.contains_key(p) ==> walk_file_done(
                staged0,
                old(staged_db)@,
                working@,
                *maybe_head_tree,
                c0,
                p,
            ),
        crate::staged::seen_dirs_staged(seen_dirs@, old(staged_db)@),
        forall|p: Seq<char>|
            #[trigger] seen_dirs@.contains(p) ==> exists|k: Seq<char>|
                #![auto]
                working@.contains_key(k) && ancestors_of(k).contains(p),
    ensures
        final(staged_db).wf(),
        add_run_effect(
            staged0,
            final(staged_db)@,
            c0,
            conflicts@,
            working@,
            *maybe_head_tree,
            prefix1,
        ),
        forall|p: Seq<char>|
            c0.contains_key(p) && !conflicts@.contains_key(p) ==> walk_file_done(
                staged0,
                final(staged_db)@,
                working@,
                *maybe_head_tree,
                c0,
                p,
            ),
        crate::staged::seen_dirs_staged(seen_dirs@, final(staged_db)@),
{
    let ghost w = working@;
    let ghost head = *maybe_head_tree;
    let ghost q = path@;
    let ghost staged_pre = staged_db@;
    let ghost iv = prefix.len() as int;
    proof {
        assert(prefix1[iv]@ == q);
    }
    stage_removals(staged_db, maybe_head_tree, path);
            proof {
                assert(!w.contains_key(q));
                assert(!(exists|k: Seq<char>| #[trigger] w.contains_key(k) && in_subtree(k, q)));
                assert forall|p: Seq<char>| #[trigger] staged_db@.contains_key(p) implies (
                staged_pre.contains_key(p) && staged_db@[p] == staged_pre[p]) || (prior_of(
                    head,
                    p,
                ) is Some && (p == q || in_subtree(p, q)) && p.len() > 0 && staged_db@[p]@
                    == removed_entry_view(head, p)) by {}
                assert forall|k: Seq<char>|
                    w.contains_key(k) && walk_file_done(
                        staged0,
                        staged_pre,
                        w,
                        head,
                        c0,
                        k,
                    ) implies walk_file_done(staged0, staged_db@, w, head, c0, k) by {
                    reveal(walk_file_done);
                    assert((staged_db@.contains_key(k) == staged_pre.contains_key(k)) && (
                    staged_pre.contains_key(k) ==> staged_db@[k] == staged_pre[k])) by {
                        if staged_db@.contains_key(k) && !(staged_pre.contains_key(k)
                            && staged_db@[k] == staged_pre[k]) {
                            assert(k == q || in_subtree(k, q));
                            assert(false);
                        }
                        if !staged_db@.contains_key(k) {
                            assert(!staged_pre.contains_key(k));
                        }
                    }
                    let effk = walk_outcome(prior_of(head, k), w[k], c0.contains_key(k));
                    if effk != StagedEntryStatus::Unmodified {
                        assert forall|a: Seq<char>|
                            #![trigger ancestors_of(k).contains(a)]
                            ancestors_of(k).contains(a) implies staged_db@.contains_key(a)
                            && is_staged_dir(staged_db@[a]@, a) by {
                            assert(staged_pre.contains_key(a) && is_staged_dir(
                                staged_pre[a]@,
                                a,
                            ));
                            if !(staged_pre.contains_key(a) && staged_db@[a] == staged_pre[a]) {
                                if a == q {
                                    assert(in_subtree(k, q));
                                } else {
                                    assert(in_subtree(a, q));
                                    crate::staged::lemma_ancestors_in_chain(k, a, q);
                                    assert(in_subtree(k, q));
                                }
                                assert(false);
                            }
                        }
                    }
                }
                assert forall|k: Seq<char>|
                    #![auto]
                    w.contains_key(k) && covers(w, prefix1, k) implies walk_file_done(
                    staged0,
                    staged_db@,
                    w,
                    head,
                    c0,
                    k,
                ) by {
                    assert(covers(w, prefix, k)) by {
                        let j = choose|j: int|
                            0 <= j < prefix1.len() && ((#[trigger] prefix1[j])@ == k || (
                            !w.contains_key(prefix1[j]@) && in_subtree(k, prefix1[j]@)));
                        if j == iv {
                            assert(false);
                        } else {
                            assert(prefix[j] == prefix1[j]);
                        }
                    }
                    assert(walk_file_done(staged0, staged_pre, w, head, c0, k));
                }
                assert forall|p: Seq<char>|
                    c0.contains_key(p) && !conflicts@.contains_key(p) implies walk_file_done(
                    staged0,
                    staged_db@,
                    w,
                    head,
                    c0,
                    p,
                ) by {
                    assert(walk_file_done(staged0, staged_pre, w, head, c0, p));
                    assert(w.contains_key(p));
                }
                assert forall|qq: Seq<char>|
                    #![auto]
                    removal_target(w, head, prefix1, qq) implies staged_db@.contains_key(qq)
                    && staged_db@[qq]@ == removed_entry_view(head, qq) by {
                    let q2 = choose|q2: Seq<char>|
                        #[trigger] removal_request(w, prefix1, q2) && (qq == q2 || in_subtree(
                            qq,
                            q2,
                        ));
                    if q2 == q {
                        assert(staged_db@.contains_key(qq) && staged_db@[qq]@
                            == removed_entry_view(head, qq));
                    } else {
                        let j = choose|j: int|
                            0 <= j < prefix1.len() && (#[trigger] prefix1[j])@ == q2;
                        assert(prefix1[iv]@ == q);
                        assert(j != iv);
                        assert(prefix[j] == prefix1[j]);
                        assert(removal_request(w, prefix, q2));
                        assert(removal_target(w, head, prefix, qq));
                        assert(staged_pre.contains_key(qq) && staged_pre[qq]@
                            == removed_entry_view(head, qq));
                        assert(staged_db@.contains_key(qq));
                        if !(staged_pre.contains_key(qq) && staged_db@[qq] == staged_pre[qq]) {
                            assert(staged_db@[qq]@ == removed_entry_view(head, qq));
                        }
                    }
                }
                assert forall|p: Seq<char>| #[trigger] staged_db@.contains_key(p) implies (
                staged0.contains_key(p) && staged_db@[p] == staged0[p]) || add_touches(
                    w,
                    head,
                    c0,
                    prefix1,
                    p,
                ) by {
                    if !(staged_pre.contains_key(p) && staged_db@[p] == staged_pre[p]) {
                        assert(prior_of(head, p) is Some && (p == q || in_subtree(p, q)) && p.len()
                            > 0);
                        assert(removal_request(w, prefix1, q)) by {
                            assert(prefix1[iv]@ == q);
                        }
                        assert(removal_target(w, head, prefix1, p));
                    } else if !(staged0.contains_key(p) && staged_db@[p] == staged0[p]) {
                        assert(add_touches(w, head, c0, prefix, p));
                        assert(add_touches(w, head, c0, prefix1, p)) by {
                            if removal_target(w, head, prefix, p) {
                                let q2 = choose|q2: Seq<char>|
                                    #[trigger] removal_request(w, prefix, q2) && (p == q2
                                        || in_subtree(p, q2));
                                let j = choose|j: int|
                                    0 <= j < prefix.len() && (#[trigger] prefix[j])@ == q2;
                                assert(prefix1[j] == prefix[j]);
                                assert(removal_request(w, prefix1, q2));
                            } else {
                                let k = choose|k: Seq<char>|
                                    #![auto]
                                    w.contains_key(k) && covers(w, prefix, k) && walk_outcome(
                                        prior_of(head, k),
                                        w[k],
                                        c0.contains_key(k),
                                    ) != StagedEntryStatus::Unmodified && (p == k || ancestors_of(
                                        k,
                                    ).contains(p));
                            }
                        }
                    }
                }
                assert forall|p: Seq<char>| #[trigger] seen_dirs@.contains(p) implies staged_db@.contains_key(
                    p,
                ) && is_staged_dir(staged_db@[p]@, p) by {
                    let k = choose|k: Seq<char>|
                        #![auto]
                        w.contains_key(k) && ancestors_of(k).contains(p);
                    assert(staged_pre.contains_key(p) && is_staged_dir(staged_pre[p]@, p));
                    if !(staged_pre.contains_key(p) && staged_db@[p] == staged_pre[p]) {
                        if p == q {
                            assert(in_subtree(k, q));
                        } else {
                            assert(in_subtree(p, q));
                            crate::staged::lemma_ancestors_in_chain(k, p, q);
                            assert(in_subtree(k, q));
                        }
                        assert(false);
                    }
                }
                assert forall|k: Seq<char>|
                    #![auto]
                    w.contains_key(k) && covers(w, prefix1, k) implies !conflicts@.contains_key(
                    k,
                ) by {
                    assert(covers(w, prefix, k)) by {
                        let j = choose|j: int|
                            0 <= j < prefix1.len() && ((#[trigger] prefix1[j])@ == k || (
                            !w.contains_key(prefix1[j]@) && in_subtree(k, prefix1[j]@)));
                        if j == iv {
                            assert(false);
                        } else {
                            assert(prefix[j] == prefix1[j]);
                        }
                    }
                }
                assert forall|p: Seq<char>|
                    c0.contains_key(p) && !conflicts@.contains_key(p) implies w.contains_key(p)
                    && covers(w, prefix1, p) by {
                    assert(covers(w, prefix, p));
                    let j = choose|j: int|
                        0 <= j < prefix.len() && ((#[trigger] prefix[j])@ == p || (!w.contains_key(
                            prefix[j]@,
                        ) && in_subtree(p, prefix[j]@)));
                    assert(prefix1[j] == prefix[j]);
                }
                assert forall|p: Seq<char>| #[trigger] staged0.contains_key(p) implies staged_db@.contains_key(
                    p,
                ) by {
                    assert(staged_pre.contains_key(p));
                }
            }
}

/// Runs the directory walk for one expanded path and carries the add run's
/// recorded effect forward over the extended path list.
#[verifier::rlimit(100)]
#[verifier::spinoff_prover]
fn apply_dir_walk(
    working: &KvDb<WorkingFile>,
    maybe_head_tree: &Option<crate::tree::Tree>,
    version_store: &mut crate::version_store::VersionStore,
    staged_db: &mut KvDb<StagedMerkleTreeNode>,
    conflicts: &mut KvDb<NodeMergeConflict>,
    seen_dirs: &StringHashSet,
    path: &str,
    Ghost(staged0): Ghost<Map<Seq<char>, StagedMerkleTreeNode>>,
    Ghost(c0): Ghost<Map<Seq<char>, NodeMergeConflict>>,
    Ghost(prefix): Ghost<Seq<String>>,
    Ghost(prefix1): Ghost<Seq<String>>,
) -> (r: (CumulativeStats, u64))
    requires
        working.wf(),
        crate::repo::working_wf(working@),
        old(version_store).wf(),
        old(staged_db).wf(),
        old(conflicts).wf(),
        maybe_head_tree matches Some(t) ==> t.wf() && (forall|k: Seq<char>|
            #[trigger] t.files@.contains_key(k) ==> old(version_store).contents().contains_key(
                t.files@[k]@.hash,
            )),
        !working@.contains_key(path@),
        exists|k: Seq<char>| #[trigger] working@.contains_key(k) && in_subtree(k, path@),
        prefix1.len() == prefix.len() + 1,
        prefix1.drop_last() == prefix,
        prefix1.last()@ == path@,
        add_run_effect(
            staged0,
            old(staged_db)@,
            c0,
            old(conflicts)@,
            working@,
            *maybe_head_tree,
            prefix,
        ),
        forall|p: Seq<char>|
            c0.contains_key(p) && !old(conflicts)@.contains_key(p) ==> walk_file_done(
                staged0,
                old(staged_db)@,
                working@,
                *maybe_head_tree,
                c0,
                p,
            ),
        crate::staged::seen_dirs_staged(seen_dirs@, old(staged_db)@),
        forall|p: Seq<char>|
            #[trigger] seen_dirs@.contains(p) ==> exists|k: Seq<char>|
                #![auto]
                working@.contains_key(k) && ancestors_of(k).contains(p),
    ensures
        final(version_store).wf(),
        final(staged_db).wf(),
        final(conflicts).wf(),
        forall|h: u128|
            #[trigger] old(version_store).contents().contains_key(h) ==> final(version_store).contents().contains_key(h) && final(version_store).contents()[h] == old(version_store).contents()[h],
        forall|k: Seq<char>|
            #![auto]
            working@.contains_key(k) && in_subtree(k, path@) && status_of(
                prior_of(*maybe_head_tree, k),
                working@[k].bytes@,
            ) != StagedEntryStatus::Unmodified ==> final(version_store).contents().contains_key(
                hash_bytes_spec(working@[k].bytes@),
            ),
        add_run_effect(
            staged0,
            final(staged_db)@,
            c0,
            final(conflicts)@,
            working@,
            *maybe_head_tree,
            prefix1,
        ),
        forall|p: Seq<char>|
            c0.contains_key(p) && !final(conflicts)@.contains_key(p) ==> walk_file_done(
                staged0,
                final(staged_db)@,
                working@,
                *maybe_head_tree,
                c0,
                p,
            ),
        crate::staged::seen_dirs_staged(seen_dirs@, final(staged_db)@),
        r.0.total_files == changed_count(
            working@,
            working.keys_view(),
            *maybe_head_tree,
            old(conflicts)@,
            path@,
            working.keys_view().len() as int,
        ),
        r.0.total_bytes == changed_bytes(
            working@,
            working.keys_view(),
            *maybe_head_tree,
            old(conflicts)@,
            path@,
            working.keys_view().len() as int,
        ),
        r.0.data_type_counts == changed_type_counts(
            working@,
            working.keys_view(),
            *maybe_head_tree,
            old(conflicts)@,
            path@,
            working.keys_view().len() as int,
        ),
{
    let ghost w = working@;
    let ghost head = *maybe_head_tree;
    let ghost q = path@;
    let ghost staged_pre = staged_db@;
    let ghost conflicts_pre = conflicts@;
    let ghost iv = prefix.len() as int;
    let (stats, unchanged) = process_add_dir(
        working,
        maybe_head_tree,
        version_store,
        staged_db,
        conflicts,
        path,
    );
            proof {
                assert forall|k: Seq<char>|
                    #![auto]
                    w.contains_key(k) && covers(w, prefix1, k) implies walk_file_done(
                    staged0,
                    staged_db@,
                    w,
                    head,
                    c0,
                    k,
                ) by {
                    lemma_outcome_stable(w, head, c0, conflicts_pre, k);
                    if in_subtree(k, q) {
                        assert(walk_file_done(
                            staged_pre,
                            staged_db@,
                            w,
                            head,
                            conflicts_pre,
                            k,
                        )) by {
                            working.lemma_contained_key_listed(k);
                            let j = choose|j: int|
                                0 <= j < working.keys_view().len() && working.keys_view()[j] == k;
                        }
                        if conflicts_pre.contains_key(k) == c0.contains_key(k) {
                            if covers(w, prefix, k) {
                                lemma_walk_file_done_compose(
                                    staged0,
                                    staged_pre,
                                    staged_db@,
                                    w,
                                    head,
                                    c0,
                                    conflicts_pre,
                                    k,
                                );
                            } else {
                                reveal(walk_file_done);
                                let effk = walk_outcome(
                                    prior_of(head, k),
                                    w[k],
                                    c0.contains_key(k),
                                );
                                if effk == StagedEntryStatus::Unmodified {
                                    assert(!add_touches(w, head, c0, prefix, k)) by {
                                        if add_touches(w, head, c0, prefix, k) {
                                            let kk = choose|kk: Seq<char>|
                                                #![auto]
                                                w.contains_key(kk) && covers(w, prefix, kk)
                                                    && walk_outcome(
                                                    prior_of(head, kk),
                                                    w[kk],
                                                    c0.contains_key(kk),
                                                ) != StagedEntryStatus::Unmodified && (k == kk
                                                    || ancestors_of(kk).contains(k));
                                            if k != kk {
                                                assert(ancestors_of(kk).contains(k));
                                            }
                                        }
                                    }
                                }
                            }
                        } else {
                            assert(c0.contains_key(k) && !conflicts_pre.contains_key(k));
                            lemma_walk_file_done_compose(
                                staged0,
                                staged_pre,
                                staged_db@,
                                w,
                                head,
                                c0,
                                conflicts_pre,
                                k,
                            );
                        }
                    } else {
                        assert(covers(w, prefix, k)) by {
                            let j = choose|j: int|
                                0 <= j < prefix1.len() && ((#[trigger] prefix1[j])@ == k || (
                                !w.contains_key(prefix1[j]@) && in_subtree(k, prefix1[j]@)));
                            if j == iv {
                                assert(in_subtree(k, q));
                            } else {
                                assert(prefix[j] == prefix1[j]);
                            }
                        }
                        assert(walk_file_done(staged0, staged_pre, w, head, c0, k));
                        reveal(walk_file_done);
                        assert((staged_db@.contains_key(k) == staged_pre.contains_key(k)) && (
                        staged_pre.contains_key(k) ==> staged_db@[k] == staged_pre[k])) by {
                            if staged_db@.contains_key(k) {
                                if !(staged_pre.contains_key(k) && staged_db@[k]
                                    == staged_pre[k]) {
                                    assert(false);
                                }
                            } else {
                                assert(!staged_pre.contains_key(k));
                            }
                        }
                        let effk = walk_outcome(prior_of(head, k), w[k], c0.contains_key(k));
                        if effk != StagedEntryStatus::Unmodified {
                            assert forall|a: Seq<char>|
                                #![trigger ancestors_of(k).contains(a)]
                                ancestors_of(k).contains(a) implies staged_db@.contains_key(a)
                                && is_staged_dir(staged_db@[a]@, a) by {
                                assert(staged_pre.contains_key(a) && is_staged_dir(
                                    staged_pre[a]@,
                                    a,
                                ));
                                if !(staged_pre.contains_key(a) && staged_db@[a]
                                    == staged_pre[a]) {
                                    assert(is_staged_dir(staged_db@[a]@, a));
                                }
                            }
                        }
                    }
                }
                assert forall|p: Seq<char>|
                    c0.contains_key(p) && !conflicts@.contains_key(p) implies walk_file_done(
                    staged0,
                    staged_db@,
                    w,
                    head,
                    c0,
                    p,
                ) by {
                    if conflicts_pre.contains_key(p) {
                        assert(w.contains_key(p) && in_subtree(p, q));
                        assert(covers(w, prefix1, p)) by {
                            assert(prefix1[iv]@ == q);
                        }
                    } else {
                        assert(walk_file_done(staged0, staged_pre, w, head, c0, p));
                        lemma_outcome_stable(w, head, c0, conflicts_pre, p);
                        if in_subtree(p, q) {
                            assert(walk_file_done(
                                staged_pre,
                                staged_db@,
                                w,
                                head,
                                conflicts_pre,
                                p,
                            )) by {
                                working.lemma_contained_key_listed(p);
                            }
                            lemma_walk_file_done_compose(
                                staged0,
                                staged_pre,
                                staged_db@,
                                w,
                                head,
                                c0,
                                conflicts_pre,
                                p,
                            );
                        } else {
                            reveal(walk_file_done);
                            let effp = walk_outcome(prior_of(head, p), w[p], c0.contains_key(p));
                            if effp != StagedEntryStatus::Unmodified {
                                assert(staged_db@.contains_key(p) && staged_db@[p]
                                    == staged_pre[p]) by {
                                    if !(staged_pre.contains_key(p) && staged_db@[p]
                                        == staged_pre[p]) {
                                        assert(false);
                                    }
                                }
                                assert forall|a: Seq<char>|
                                    #![trigger ancestors_of(p).contains(a)]
                                    ancestors_of(p).contains(a) implies staged_db@.contains_key(a)
                                    && is_staged_dir(staged_db@[a]@, a) by {
                                    assert(staged_pre.contains_key(a) && is_staged_dir(
                                        staged_pre[a]@,
                                        a,
                                    ));
                                    if !(staged_pre.contains_key(a) && staged_db@[a]
                                        == staged_pre[a]) {
                                        assert(is_staged_dir(staged_db@[a]@, a));
                                    }
                                }
                            } else {
                                assert((staged_db@.contains_key(p) == staged_pre.contains_key(p))
                                    && (staged_pre.contains_key(p) ==> staged_db@[p]
                                    == staged_pre[p])) by {
                                    if staged_db@.contains_key(p) {
                                        if !(staged_pre.contains_key(p) && staged_db@[p]
                                            == staged_pre[p]) {
                                            assert(false);
                                        }
                                    } else {
                                        assert(!staged_pre.contains_key(p));
                                    }
                                }
                            }
                        }
                    }
                }
                assert forall|qq: Seq<char>|
                    #![auto]
                    removal_target(w, head, prefix1, qq) implies staged_db@.contains_key(qq)
                    && staged_db@[qq]@ == removed_entry_view(head, qq) by {
                    let q2 = choose|q2: Seq<char>|
                        #[trigger] removal_request(w, prefix1, q2) && (qq == q2 || in_subtree(
                            qq,
                            q2,
                        ));
                    assert(q2 != q) by {
                        if q2 == q {
                            let kx = choose|kx: Seq<char>|
                                #[trigger] w.contains_key(kx) && in_subtree(kx, path@);
                            assert(w.contains_key(kx) && in_subtree(kx, q));
                            assert(false);
                        }
                    }
                    assert(!w.contains_key(qq)) by {
                        if qq != q2 {
                            assert(in_subtree(qq, q2));
                        }
                    }
                    assert(removal_target(w, head, prefix, qq)) by {
                        let j = choose|j: int|
                            0 <= j < prefix1.len() && (#[trigger] prefix1[j])@ == q2;
                        assert(prefix1[iv]@ == q);
                        assert(j != iv);
                        assert(prefix[j] == prefix1[j]);
                        assert(removal_request(w, prefix, q2));
                    }
                    assert(staged_pre.contains_key(qq) && staged_pre[qq]@ == removed_entry_view(
                        head,
                        qq,
                    ));
                    if !(staged_pre.contains_key(qq) && staged_db@[qq] == staged_pre[qq]) {
                        let k3 = choose|k3: Seq<char>|
                            #![auto]
                            w.contains_key(k3) && in_subtree(k3, q) && walk_outcome(
                                prior_of(head, k3),
                                w[k3],
                                conflicts_pre.contains_key(k3),
                            ) != StagedEntryStatus::Unmodified && ancestors_of(k3).contains(qq);
                        if qq == q2 {
                            assert(in_subtree(k3, q2));
                        } else {
                            crate::staged::lemma_ancestors_in_chain(k3, qq, q2);
                            assert(in_subtree(k3, q2));
                        }
                        assert(false);
                    }
                }
                assert forall|p: Seq<char>| #[trigger] staged_db@.contains_key(p) implies (
                staged0.contains_key(p) && staged_db@[p] == staged0[p]) || add_touches(
                    w,
                    head,
                    c0,
                    prefix1,
                    p,
                ) by {
                    if !(staged_pre.contains_key(p) && staged_db@[p] == staged_pre[p]) {
                        if w.contains_key(p) && in_subtree(p, q) {
                            lemma_outcome_stable(w, head, c0, conflicts_pre, p);
                            assert(covers(w, prefix1, p)) by {
                                assert(prefix1[iv]@ == q);
                            }
                            assert(add_touches(w, head, c0, prefix1, p));
                        } else {
                            let k = choose|k: Seq<char>|
                                #![auto]
                                w.contains_key(k) && in_subtree(k, q) && walk_outcome(
                                    prior_of(head, k),
                                    w[k],
                                    conflicts_pre.contains_key(k),
                                ) != StagedEntryStatus::Unmodified && ancestors_of(k).contains(p);
                            lemma_outcome_stable(w, head, c0, conflicts_pre, k);
                            assert(covers(w, prefix1, k)) by {
                                assert(prefix1[iv]@ == q);
                            }
                            assert(add_touches(w, head, c0, prefix1, p));
                        }
                    } else {
                        if !(staged0.contains_key(p) && staged_db@[p] == staged0[p]) {
                            assert(add_touches(w, head, c0, prefix, p));
                            assert(add_touches(w, head, c0, prefix1, p)) by {
                                if removal_target(w, head, prefix, p) {
                                    let q2 = choose|q2: Seq<char>|
                                        #[trigger] removal_request(w, prefix, q2) && (p == q2
                                            || in_subtree(p, q2));
                                    let j = choose|j: int|
                                        0 <= j < prefix.len() && (#[trigger] prefix[j])@ == q2;
                                    assert(prefix1[j] == prefix[j]);
                                    assert(removal_request(w, prefix1, q2));
                                } else {
                                    let k = choose|k: Seq<char>|
                                        #![auto]
                                        w.contains_key(k) && covers(w, prefix, k) && walk_outcome(
                                            prior_of(head, k),
                                            w[k],
                                            c0.contains_key(k),
                                        ) != StagedEntryStatus::Unmodified && (p == k
                                            || ancestors_of(k).contains(p));
                                }
                            }
                        }
                    }
                }
                assert forall|p: Seq<char>| #[trigger] seen_dirs@.contains(p) implies seen_dirs@.contains(
                    p,
                ) && staged_db@.contains_key(p) && is_staged_dir(staged_db@[p]@, p) by {
                    let k = choose|k: Seq<char>|
                        #![auto]
                        w.contains_key(k) && ancestors_of(k).contains(p);
                    assert(!w.contains_key(p));
                    assert(staged_pre.contains_key(p) && is_staged_dir(staged_pre[p]@, p));
                    if !(staged_pre.contains_key(p) && staged_db@[p] == staged_pre[p]) {
                        assert(is_staged_dir(staged_db@[p]@, p));
                    }
                }
            }
    proof {
        assert forall|k: Seq<char>|
            #![auto]
            w.contains_key(k) && covers(w, prefix1, k) implies !conflicts@.contains_key(k) by {
            if covers(w, prefix, k) {
                assert(!conflicts_pre.contains_key(k));
            } else {
                let j = choose|j: int|
                    0 <= j < prefix1.len() && ((#[trigger] prefix1[j])@ == k || (!w.contains_key(
                        prefix1[j]@,
                    ) && in_subtree(k, prefix1[j]@)));
                if j < iv {
                    assert(prefix[j] == prefix1[j]);
                    assert(covers(w, prefix, k));
                }
                assert(j == iv);
                assert(in_subtree(k, q));
                working.lemma_contained_key_listed(k);
                let jj = choose|jj: int|
                    0 <= jj < working.keys_view().len() && working.keys_view()[jj] == k;
                assert(working.keys_view()[jj] == k);
            }
        }
        assert forall|p: Seq<char>|
            c0.contains_key(p) && !conflicts@.contains_key(p) implies w.contains_key(p) && covers(
            w,
            prefix1,
            p,
        ) by {
            if conflicts_pre.contains_key(p) {
                assert(w.contains_key(p) && in_subtree(p, q));
                assert(covers(w, prefix1, p)) by {
                    assert(prefix1[iv]@ == q);
                }
            } else {
                assert(covers(w, prefix, p));
                let j = choose|j: int|
                    0 <= j < prefix.len() && ((#[trigger] prefix[j])@ == p || (!w.contains_key(
                        prefix[j]@,
                    ) && in_subtree(p, prefix[j]@)));
                assert(prefix1[j] == prefix[j]);
            }
        }
        assert forall|p: Seq<char>| #[trigger] staged0.contains_key(p) implies staged_db@.contains_key(
            p,
        ) by {
            assert(staged_pre.contains_key(p));
        }
        assert forall|k: Seq<char>|
            #![auto]
            w.contains_key(k) && in_subtree(k, q) && status_of(prior_of(head, k), w[k].bytes@)
                != StagedEntryStatus::Unmodified implies version_store.contents().contains_key(
            hash_bytes_spec(w[k].bytes@),
        ) by {}
    }
    (stats, unchanged)
}

/// Adds one expanded path: an existing working file runs the single-file
/// flow, a directory runs the walk, and a path that exists nowhere on disk
/// but is tracked by the head commit is staged for removal. The whole
/// run's effect on the staged database and the conflict store is
/// [`add_run_effect`].
#[verifier::rlimit(100)]
#[verifier::spinoff_prover]
pub fn add_files(
    working: &KvDb<WorkingFile>,
    maybe_head_tree: &Option<crate::tree::Tree>,
    version_store: &mut crate::version_store::VersionStore,
    staged_db: &mut KvDb<StagedMerkleTreeNode>,
    conflicts: &mut KvDb<NodeMergeConflict>,
    paths: &Vec<String>,
) -> (r: CumulativeStats)
    requires
        working.wf(),
        crate::repo::working_wf(working@),
        old(version_store).wf(),
        old(staged_db).wf(),
        old(conflicts).wf(),
        maybe_head_tree matches Some(t) ==> t.wf() && (forall|k: Seq<char>|
            #[trigger] t.files@.contains_key(k) ==> old(version_store).contents().contains_key(
                t.files@[k]@.hash,
            )),
    ensures
        final(version_store).wf(),
        final(staged_db).wf(),
        final(conflicts).wf(),
        forall|h: u128|
            #[trigger] old(version_store).contents().contains_key(h) ==> final(version_store).contents().contains_key(h) && final(version_store).contents()[h] == old(version_store).contents()[h],
        forall|k: Seq<char>|
            #![auto]
            working@.contains_key(k) && covers(working@, paths@, k) && status_of(
                prior_of(*maybe_head_tree, k),
                working@[k].bytes@,
            ) != StagedEntryStatus::Unmodified ==> final(version_store).contents().contains_key(
                hash_bytes_spec(working@[k].bytes@),
            ),
        add_run_effect(
            old(staged_db)@,
            final(staged_db)@,
            old(conflicts)@,
            final(conflicts)@,
            working@,
            *maybe_head_tree,
            paths@,
        ),
        paths@.len() == 1 ==> single_add_stats(
            working@,
            working.keys_view(),
            *maybe_head_tree,
            old(conflicts)@,
            paths@[0]@,
            r,
        ),
{
    let ghost w = working@;
    let ghost head = *maybe_head_tree;
    let ghost c0 = conflicts@;
    let ghost staged0 = staged_db@;

    let mut total = CumulativeStats {
        total_files: 0,
        total_bytes: 0,
        data_type_counts: DataTypeCounts {
            binary: 0,
            tabular: 0,
            image: 0,
            audio: 0,
            video: 0,
            text: 0,
        },
    };
    let mut seen_dirs = StringHashSet::new();
    let n = paths.len();
    let mut i: usize = 0;
    proof {
        assert forall|qq: Seq<char>|
            #![auto]
            removal_target(w, head, paths@.subrange(0, 0), qq) implies false by {}
        assert forall|p: Seq<char>| #[trigger] staged_db@.contains_key(p) implies (
        staged0.contains_key(p) && staged_db@[p] == staged0[p]) || add_touches(
            w,
            head,
            c0,
            paths@.subrange(0, 0),
            p,
        ) by {}
    }
    while i < n
        invariant
            working.wf(),
            crate::repo::working_wf(working@),
            version_store.wf(),
            staged_db.wf(),
            conflicts.wf(),
            w == working@,
            head == *maybe_head_tree,
            c0 == old(conflicts)@,
            staged0 == old(staged_db)@,
            n == paths@.len(),
            i <= n,
            maybe_head_tree matches Some(t) ==> t.wf() && (forall|k: Seq<char>|
                #[trigger] t.files@.contains_key(k) ==> old(version_store).contents().contains_key(
                    t.files@[k]@.hash,
                )),
            forall|h: u128|
                #[trigger] old(version_store).contents().contains_key(h)
                    ==> version_store.contents().contains_key(h) && version_store.contents()[h]
                    == old(version_store).contents()[h],
            crate::staged::seen_dirs_staged(seen_dirs@, staged_db@),
            forall|p: Seq<char>|
                #[trigger] seen_dirs@.contains(p) ==> exists|k: Seq<char>|
                    #![auto]
                    w.contains_key(k) && ancestors_of(k).contains(p),
            forall|k: Seq<char>|
                #![auto]
                w.contains_key(k) && covers(w, paths@.subrange(0, i as int), k) && status_of(
                    prior_of(head, k),
                    w[k].bytes@,
                ) != StagedEntryStatus::Unmodified ==> version_store.contents().contains_key(
                    hash_bytes_spec(w[k].bytes@),
                ),
            add_run_effect(
                staged0,
                staged_db@,
                c0,
                conflicts@,
                w,
                head,
                paths@.subrange(0, i as int),
            ),
            forall|p: Seq<char>|
                c0.contains_key(p) && !conflicts@.contains_key(p) ==> walk_file_done(
                    staged0,
                    staged_db@,
                    w,
                    head,
                    c0,
                    p,
                ),
            i == 1 && n == 1 ==> single_add_stats(w, working.keys_view(), head, c0, paths@[0]@, total),
            i == 0 ==> total == (CumulativeStats {
                total_files: 0,
                total_bytes: 0,
                data_type_counts: DataTypeCounts {
                    binary: 0,
                    tabular: 0,
                    image: 0,
                    audio: 0,
                    video: 0,
                    text: 0,
                },
            }),
        decreases n - i,
    {
        let ghost prefix = paths@.subrange(0, i as int);
        let ghost prefix1 = paths@.subrange(0, i + 1);
        proof {
            if i == 0 {
                assert forall|p: Seq<char>| #[trigger] conflicts@.contains_key(p)
                    == c0.contains_key(p) by {
                    if c0.contains_key(p) && !conflicts@.contains_key(p) {
                        assert(covers(w, prefix, p));
                        assert(false);
                    }
                }
                assert(conflicts@ =~= c0);
            }
            assert(prefix1.drop_last() =~= prefix);
            assert(prefix1.last() == paths@[i as int]);
            assert forall|k: Seq<char>| covers(w, prefix, k) implies covers(w, prefix1, k) by {
                let j = choose|j: int|
                    0 <= j < prefix.len() && ((#[trigger] prefix[j])@ == k || (!w.contains_key(
                        prefix[j]@,
                    ) && in_subtree(k, prefix[j]@)));
                assert(prefix1[j] == prefix[j]);
            }
        }
        let path = &paths[i];
        let ghost q = path@;
        let ghost staged_pre = staged_db@;
        let ghost conflicts_pre = conflicts@;
        if working.contains_key(path.as_str()) {
            proof {
                assert forall|p: Seq<char>| #[trigger] seen_dirs@.contains(p) implies !working@.contains_key(
                    p,
                ) by {
                    let k = choose|k: Seq<char>|
                        #![auto]
                        w.contains_key(k) && ancestors_of(k).contains(p);
                }
            }
            let entry = add_file_inner(
                working,
                maybe_head_tree,
                version_store,
                staged_db,
                conflicts,
                &mut seen_dirs,
                path.as_str(),
            );
            proof {
                lemma_outcome_stable(w, head, c0, conflicts_pre, q);
                if conflicts_pre.contains_key(q) != c0.contains_key(q) {
                    assert(c0.contains_key(q) && !conflicts_pre.contains_key(q));
                    assert(walk_file_done(staged0, staged_pre, w, head, c0, q));
                }
                let eff_pre = walk_outcome(prior_of(head, q), w[q], conflicts_pre.contains_key(q));
                let eff0 = walk_outcome(prior_of(head, q), w[q], c0.contains_key(q));
                assert(walk_file_done(staged0, staged_db@, w, head, c0, q)) by {
                    reveal(walk_file_done);
                    if eff_pre != StagedEntryStatus::Unmodified {
                        assert(eff_pre == eff0);
                    } else {
                        if conflicts_pre.contains_key(q) == c0.contains_key(q) {
                            assert(eff0 == eff_pre);
                            if !covers(w, prefix, q) && !add_touches(w, head, c0, prefix, q) {
                                assert(staged_pre.contains_key(q) == staged0.contains_key(q)
                                    && (staged0.contains_key(q) ==> staged_pre[q] == staged0[q]));
                            }
                            assert(!add_touches(w, head, c0, prefix, q)) by {
                                if add_touches(w, head, c0, prefix, q) {
                                    let k = choose|k: Seq<char>|
                                        #![auto]
                                        w.contains_key(k) && covers(w, prefix, k) && walk_outcome(
                                            prior_of(head, k),
                                            w[k],
                                            c0.contains_key(k),
                                        ) != StagedEntryStatus::Unmodified && (q == k
                                            || ancestors_of(k).contains(q));
                                    if q != k {
                                        assert(ancestors_of(k).contains(q));
                                    }
                                }
                            }
                        } else {
                            assert(walk_file_done(staged0, staged_pre, w, head, c0, q));
                        }
                    }
                }
                assert forall|k: Seq<char>|
                    #![auto]
                    w.contains_key(k) && covers(w, prefix1, k) implies walk_file_done(
                    staged0,
                    staged_db@,
                    w,
                    head,
                    c0,
                    k,
                ) by {
                    if k != q {
                        assert(covers(w, prefix, k)) by {
                            let j = choose|j: int|
                                0 <= j < prefix1.len() && ((#[trigger] prefix1[j])@ == k || (
                                !w.contains_key(prefix1[j]@) && in_subtree(k, prefix1[j]@)));
                            assert(j < prefix.len());
                            assert(prefix[j] == prefix1[j]);
                        }
                        assert(!ancestors_of(q).contains(k) && !ancestors_of(k).contains(q));
                        let effk = walk_outcome(prior_of(head, k), w[k], c0.contains_key(k));
                        let eff_pre = walk_outcome(
                            prior_of(head, q),
                            w[q],
                            conflicts_pre.contains_key(q),
                        );
                        if eff_pre != StagedEntryStatus::Unmodified {
                            if effk != StagedEntryStatus::Unmodified {
                                lemma_walk_file_done_preserved(
                                    staged0,
                                    staged_pre,
                                    staged_db@,
                                    w,
                                    head,
                                    c0,
                                    k,
                                    q,
                                );
                            } else {
                                reveal(walk_file_done);
                            }
                        } else {
                            assert(staged_db@ == staged_pre);
                        }
                    }
                }
                assert forall|p: Seq<char>|
                    c0.contains_key(p) && !conflicts@.contains_key(p) implies walk_file_done(
                    staged0,
                    staged_db@,
                    w,
                    head,
                    c0,
                    p,
                ) by {
                    if conflicts_pre.contains_key(p) {
                        assert(p == q);
                    } else {
                        let eff_pre = walk_outcome(
                            prior_of(head, q),
                            w[q],
                            conflicts_pre.contains_key(q),
                        );
                        if p != q {
                            assert(w.contains_key(p));
                            assert(!ancestors_of(q).contains(p) && !ancestors_of(p).contains(q));
                            let effp = walk_outcome(prior_of(head, p), w[p], c0.contains_key(p));
                            if eff_pre != StagedEntryStatus::Unmodified {
                                if effp != StagedEntryStatus::Unmodified {
                                    lemma_walk_file_done_preserved(
                                        staged0,
                                        staged_pre,
                                        staged_db@,
                                        w,
                                        head,
                                        c0,
                                        p,
                                        q,
                                    );
                                } else {
                                    reveal(walk_file_done);
                                }
                            } else {
                                assert(staged_db@ == staged_pre);
                            }
                        }
                    }
                }
                assert forall|qq: Seq<char>|
                    #![auto]
                    removal_target(w, head, prefix1, qq) implies staged_db@.contains_key(qq)
                    && staged_db@[qq]@ == removed_entry_view(head, qq) by {
                    let q2 = choose|q2: Seq<char>|
                        #[trigger] removal_request(w, prefix1, q2) && (qq == q2 || in_subtree(
                            qq,
                            q2,
                        ));
                    assert(q2 != q);
                    assert(qq != q);
                    assert(removal_target(w, head, prefix, qq)) by {
                        let j = choose|j: int|
                            0 <= j < prefix1.len() && (#[trigger] prefix1[j])@ == q2;
                        assert(prefix1[i as int]@ == q);
                        assert(j != i as int);
                        assert(prefix[j] == prefix1[j]);
                        assert(removal_request(w, prefix, q2));
                        assert(removal_request(w, prefix, q2) && (qq == q2 || in_subtree(
                            qq,
                            q2,
                        )));
                    }
                    assert(staged_pre.contains_key(qq) && staged_pre[qq]@ == removed_entry_view(
                        head,
                        qq,
                    ));
                    assert(!ancestors_of(q).contains(qq)) by {
                        if ancestors_of(q).contains(qq) {
                            if qq == q2 {
                                assert(in_subtree(q, q2));
                            } else {
                                crate::staged::lemma_ancestors_in_chain(q, qq, q2);
                                assert(in_subtree(q, q2));
                            }
                        }
                    }
                }
                assert forall|p: Seq<char>| #[trigger] staged_db@.contains_key(p) implies (
                staged0.contains_key(p) && staged_db@[p] == staged0[p]) || add_touches(
                    w,
                    head,
                    c0,
                    prefix1,
                    p,
                ) by {
                    let eff_pre = walk_outcome(
                        prior_of(head, q),
                        w[q],
                        conflicts_pre.contains_key(q),
                    );
                    let eff0 = walk_outcome(prior_of(head, q), w[q], c0.contains_key(q));
                    if eff_pre != StagedEntryStatus::Unmodified && (p == q || ancestors_of(
                        q,
                    ).contains(p)) {
                        lemma_outcome_stable(w, head, c0, conflicts_pre, q);
                        assert(covers(w, prefix1, q)) by {
                            assert(prefix1[i as int]@ == q);
                        }
                        assert(add_touches(w, head, c0, prefix1, p));
                    } else {
                        if !(staged0.contains_key(p) && staged_db@[p] == staged0[p]) {
                            assert(add_touches(w, head, c0, prefix, p));
                            assert(add_touches(w, head, c0, prefix1, p)) by {
                                if removal_target(w, head, prefix, p) {
                                    let q2 = choose|q2: Seq<char>|
                                        #[trigger] removal_request(w, prefix, q2) && (p == q2
                                            || in_subtree(p, q2));
                                    let j = choose|j: int|
                                        0 <= j < prefix.len() && (#[trigger] prefix[j])@ == q2;
                                    assert(prefix1[j] == prefix[j]);
                                    assert(removal_request(w, prefix1, q2));
                                } else {
                                    let k = choose|k: Seq<char>|
                                        #![auto]
                                        w.contains_key(k) && covers(w, prefix, k) && walk_outcome(
                                            prior_of(head, k),
                                            w[k],
                                            c0.contains_key(k),
                                        ) != StagedEntryStatus::Unmodified && (p == k
                                            || ancestors_of(k).contains(p));
                                }
                            }
                        }
                    }
                }
            }
            match entry {
                Some(e) => {
                    match &e.node {
                        crate::model::MerkleTreeNode::File(file_node) => {
                            proof {
                                if n == 1 {
                                    assert(file_node@ == staged_node_of(w, head, q));
                                    assert(walk_outcome(
                                        prior_of(head, q),
                                        w[q],
                                        c0.contains_key(q),
                                    ) != StagedEntryStatus::Unmodified);
                                    assert(file_node.num_bytes == num_bytes_of(
                                        prior_of(head, q),
                                        w[q],
                                    ));
                                    assert(sat_add_spec(0, 1) == 1);
                                    assert(sat_add_spec(0, file_node.num_bytes)
                                        == file_node.num_bytes);
                                }
                            }
                            total.total_files = sat_add(total.total_files, 1);
                            total.total_bytes = sat_add(total.total_bytes, file_node.num_bytes);
                            total.data_type_counts.bump(file_node.data_type);
                        },
                        _ => {
                            proof {
                                assert(false);
                            }
                        },
                    }
                },
                None => {
                    proof {
                        if n == 1 {
                            assert(walk_outcome(prior_of(head, q), w[q], c0.contains_key(q))
                                == StagedEntryStatus::Unmodified);
                        }
                    }
                },
            }
        } else if working_has_dir(working, path.as_str()) {
            proof {
                assert(prefix1.last()@ == q);
            }
            let (stats, _unchanged) = apply_dir_walk(
                working,
                maybe_head_tree,
                version_store,
                staged_db,
                conflicts,
                &seen_dirs,
                path.as_str(),
                Ghost(staged0),
                Ghost(c0),
                Ghost(prefix),
                Ghost(prefix1),
            );
            total.add_assign(stats);
            proof {
                if n == 1 {
                    assert(sat_add_spec(0, stats.total_files) == stats.total_files);
                    assert(sat_add_spec(0, stats.total_bytes) == stats.total_bytes);
                }
            }
        } else {
            proof {
                assert(prefix1.last()@ == q);
            }
            apply_removal_request(
                working,
                maybe_head_tree,
                staged_db,
                conflicts,
                &seen_dirs,
                path.as_str(),
                Ghost(staged0),
                Ghost(c0),
                Ghost(prefix),
                Ghost(prefix1),
            );
        }
        proof {
            assert forall|k: Seq<char>|
                #![auto]
                w.contains_key(k) && covers(w, prefix1, k) implies !conflicts@.contains_key(
                k,
            ) by {
                if covers(w, prefix, k) {
                    assert(!conflicts_pre.contains_key(k));
                } else {
                    let j = choose|j: int|
                        0 <= j < prefix1.len() && ((#[trigger] prefix1[j])@ == k || (
                        !w.contains_key(prefix1[j]@) && in_subtree(k, prefix1[j]@)));
                    if j < i as int {
                        assert(prefix[j] == prefix1[j]);
                        assert(covers(w, prefix, k));
                    }
                    assert(j == i as int);
                    if w.contains_key(q) {
                        assert(k == q);
                    } else {
                        assert(in_subtree(k, q));
                        working.lemma_contained_key_listed(k);
                        let jj = choose|jj: int|
                            0 <= jj < working.keys_view().len() && working.keys_view()[jj] == k;
                        assert(working.keys_view()[jj] == k);
                    }
                }
            }
            assert(forall|p: Seq<char>|
                c0.contains_key(p) && !conflicts@.contains_key(p) ==> w.contains_key(p)
                    && covers(w, prefix1, p));
        }
        i = i + 1;
    }
    proof {
        assert(paths@.subrange(0, n as int) =~= paths@);
    }
    total
}

/// Whether some working-tree file lies under the path, making it a
/// directory of the working tree.
pub fn working_has_dir(working: &KvDb<WorkingFile>, path: &str) -> (r: bool)
    requires
        working.wf(),
    ensures
        r == exists|k: Seq<char>|
            #[trigger] working@.contains_key(k) && in_subtree(k, path@),
{
    let n = working.num_keys();
    let mut i: usize = 0;
    while i < n
        invariant
            working.wf(),
            n == working.keys_view().len(),
            i <= n,
            forall|j: int|
                0 <= j < i ==> !in_subtree(#[trigger] working.keys_view()[j], path@),
        decreases n - i,
    {
        let key = working.key_at(i);
        if crate::tree::path_is_ancestor(path, key.as_str()) {
            proof {
                working.lemma_listed_key_contained(i as int);
            }
            return true;
        }
        i = i + 1;
    }
    proof {
        assert forall|k: Seq<char>|
            #[trigger] working@.contains_key(k) implies !in_subtree(k, path@) by {
            working.lemma_contained_key_listed(k);
        }
    }
    false
}

/// Stages one directory: the walk over every working-tree file under the
/// path, against the head commit.
pub fn add_dir(
    working: &KvDb<WorkingFile>,
    maybe_head_tree: &Option<crate::tree::Tree>,
    version_store: &mut crate::version_store::VersionStore,
    staged_db: &mut KvDb<StagedMerkleTreeNode>,
    conflicts: &mut KvDb<NodeMergeConflict>,
    path: &str,
) -> (r: (CumulativeStats, u64))
    requires
        working.wf(),
        crate::repo::working_wf(working@),
        old(version_store).wf(),
        old(staged_db).wf(),
        old(conflicts).wf(),
        maybe_head_tree matches Some(t) ==> t.wf() && (forall|k: Seq<char>|
            #[trigger] t.files@.contains_key(k) ==> old(version_store).contents().contains_key(
                t.files@[k]@.hash,
            )),
    ensures
        final(version_store).wf(),
        final(staged_db).wf(),
        final(conflicts).wf(),
        r.0.total_files == changed_count(
            working@,
            working.keys_view(),
            *maybe_head_tree,
            old(conflicts)@,
            path@,
            working.keys_view().len() as int,
        ),
        r.0.total_bytes == changed_bytes(
            working@,
            working.keys_view(),
            *maybe_head_tree,
            old(conflicts)@,
            path@,
            working.keys_view().len() as int,
        ),
        r.0.data_type_counts == changed_type_counts(
            working@,
            working.keys_view(),
            *maybe_head_tree,
            old(conflicts)@,
            path@,
            working.keys_view().len() as int,
        ),
        r.1 == unchanged_count(
            working@,
            working.keys_view(),
            *maybe_head_tree,
            old(conflicts)@,
            path@,
            working.keys_view().len() as int,
        ),
{
    process_add_dir(working, maybe_head_tree, version_store, staged_db, conflicts, path)
}

/// The public add operation: expands the path — a glob against both the
/// working tree and the head commit's entries, a plain path as itself — and
/// stages every expanded path. On success the staged database, the
/// conflict store and the version store carry the whole run's effect,
/// [`add_run_effect`], for the expansion of the path, and for a plain path
/// the returned statistics are exactly the staged file's or the walk's.
pub fn add(
    working: &KvDb<WorkingFile>,
    maybe_head_tree: &Option<crate::tree::Tree>,
    version_store: &mut crate::version_store::VersionStore,
    staged_db: &mut KvDb<StagedMerkleTreeNode>,
    conflicts: &mut KvDb<NodeMergeConflict>,
    path: &str,
) -> (r: Result<CumulativeStats, OxenError>)
    requires
        working.wf(),
        crate::repo::working_wf(working@),
        old(version_store).wf(),
        old(staged_db).wf(),
        old(conflicts).wf(),
        maybe_head_tree matches Some(t) ==> t.wf() && (forall|k: Seq<char>|
            #[trigger] t.files@.contains_key(k) ==> old(version_store).contents().contains_key(
                t.files@[k]@.hash,
            )),
    ensures
        final(version_store).wf(),
        final(staged_db).wf(),
        final(conflicts).wf(),
        forall|h: u128|
            #[trigger] old(version_store).contents().contains_key(h) ==> final(version_store).contents().contains_key(h) && final(version_store).contents()[h] == old(version_store).contents()[h],
        r is Err <==> crate::paths::is_glob_spec(path@) && !glob_pattern_ok(path@),
        r is Err ==> *final(staged_db) == *old(staged_db) && *final(conflicts) == *old(conflicts)
            && *final(version_store) == *old(version_store),
        r matches Ok(stats) ==> exists|ps: Seq<String>|
            #![auto]
            expansion_of(working@, *maybe_head_tree, path@, ps) && add_run_effect(
                old(staged_db)@,
                final(staged_db)@,
                old(conflicts)@,
                final(conflicts)@,
                working@,
                *maybe_head_tree,
                ps,
            ),
        (r matches Ok(stats) && !crate::paths::is_glob_spec(path@)) ==> single_add_stats(
            working@,
            working.keys_view(),
            *maybe_head_tree,
            old(conflicts)@,
            path@,
            r->Ok_0,
        ),
{
    let paths = match expand_add_paths(working, maybe_head_tree, path) {
        Ok(v) => v,
        Err(e) => {
            return Err(e);
        },
    };
    let stats = add_files(working, maybe_head_tree, version_store, staged_db, conflicts, &paths);
    proof {
        assert(expansion_of(working@, *maybe_head_tree, path@, paths@));
    }
    Ok(stats)
}

/// Idempotence of `add`: a second run over the same expanded paths, with
/// the working tree and the head commit unchanged in between, observably
/// writes nothing — the staged database holds the same entries as after
/// the first run, and the conflict store is untouched.
pub proof fn lemma_add_rerun_idempotent(
    staged0: Map<Seq<char>, StagedMerkleTreeNode>,
    staged1: Map<Seq<char>, StagedMerkleTreeNode>,
    staged2: Map<Seq<char>, StagedMerkleTreeNode>,
    c0: Map<Seq<char>, NodeMergeConflict>,
    c1: Map<Seq<char>, NodeMergeConflict>,
    c2: Map<Seq<char>, NodeMergeConflict>,
    w: Map<Seq<char>, WorkingFile>,
    head: Option<crate::tree::Tree>,
    paths: Seq<String>,
)
    requires
        add_run_effect(staged0, staged1, c0, c1, w, head, paths),
        add_run_effect(staged1, staged2, c1, c2, w, head, paths),
    ensures
        c2 == c1,
        forall|p: Seq<char>|
            #[trigger] staged2.contains_key(p) == staged1.contains_key(p),
        forall|p: Seq<char>| #[trigger] staged1.contains_key(p) ==> staged2[p]@ == staged1[p]@,
{
    assert forall|p: Seq<char>| #[trigger] c2.contains_key(p) == c1.contains_key(p) by {
        if c1.contains_key(p) && !c2.contains_key(p) {
            assert(w.contains_key(p) && covers(w, paths, p));
            assert(!c1.contains_key(p));
        }
    }
    assert(c2 =~= c1);
    assert forall|p: Seq<char>| #[trigger] staged2.contains_key(p) implies staged1.contains_key(p)
        && staged2[p]@ == staged1[p]@ by {
        if !(staged1.contains_key(p) && staged2[p] == staged1[p]) {
            assert(add_touches(w, head, c1, paths, p));
            if removal_target(w, head, paths, p) {
                assert(staged1.contains_key(p) && staged1[p]@ == removed_entry_view(head, p));
                assert(staged2.contains_key(p) && staged2[p]@ == removed_entry_view(head, p));
            } else {
                let k = choose|k: Seq<char>|
                    #![auto]
                    w.contains_key(k) && covers(w, paths, k) && walk_outcome(
                        prior_of(head, k),
                        w[k],
                        c1.contains_key(k),
                    ) != StagedEntryStatus::Unmodified && (p == k || ancestors_of(k).contains(p));
                lemma_outcome_stable(w, head, c0, c1, k);
                assert(walk_file_done(staged0, staged1, w, head, c0, k));
                assert(walk_file_done(staged1, staged2, w, head, c1, k));
                reveal(walk_file_done);
            }
        }
    }
    assert forall|p: Seq<char>|
        #[trigger] staged2.contains_key(p) == staged1.contains_key(p) by {
        if staged1.contains_key(p) {
            assert(staged2.contains_key(p));
        }
    }
}

} // verus!
