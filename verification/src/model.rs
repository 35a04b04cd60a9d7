//! The data model: Merkle-tree nodes, staged entries, commits, working-tree
//! files and merge-conflict records.
//!
//! Each executable type has a mathematical view; the contracts of the add and
//! stash engines are stated over those views.

use vstd::prelude::*;

verus! {

use crate::hash::MerkleHash;

/// Clones a vector of strings, preserving its contents exactly.
pub fn clone_string_vec(v: &Vec<String>) -> (r: Vec<String>)
    ensures
        r@ == v@,
{
    let mut r: Vec<String> = Vec::new();
    let mut i: usize = 0;
    while i < v.len()
        invariant
            i <= v@.len(),
            r@ =~= v@.subrange(0, i as int),
        decreases v@.len() - i,
    {
        r.push(v[i].clone());
        i = i + 1;
    }
    proof {
        assert(v@.subrange(0, v@.len() as int) =~= v@);
    }
    r
}

/// Clones a byte vector, preserving its contents exactly.
pub fn clone_bytes(v: &Vec<u8>) -> (r: Vec<u8>)
    ensures
        r@ == v@,
{
    let mut r: Vec<u8> = Vec::new();
    let mut i: usize = 0;
    while i < v.len()
        invariant
            i <= v@.len(),
            r@ =~= v@.subrange(0, i as int),
        decreases v@.len() - i,
    {
        r.push(v[i]);
        i = i + 1;
    }
    proof {
        assert(v@.subrange(0, v@.len() as int) =~= v@);
    }
    r
}

/// Clones an optional string.
pub fn clone_opt_string(v: &Option<String>) -> (r: Option<String>)
    ensures
        r == *v,
{
    match v {
        Some(s) => Some(s.clone()),
        None => None,
    }
}

/// The broad data type of a file, derived from its extension and content.
#[derive(Clone, Copy, Debug, PartialEq, Eq, Structural)]
pub enum EntryDataType {
    Binary,
    Tabular,
    Image,
    Audio,
    Video,
    Text,
}

/// Whether a staged entry records an addition, a modification, an unchanged
/// file, or a removal.
#[derive(Clone, Copy, Debug, PartialEq, Eq, Structural)]
pub enum StagedEntryStatus {
    Added,
    Modified,
    Unmodified,
    Removed,
}

/// View of one schema field.
pub struct FieldView {
    pub name: Seq<char>,
    pub dtype: Seq<char>,
    pub metadata: Option<Seq<char>>,
}

/// One field of a tabular schema, with its optional user annotation.
pub struct MetadataField {
    /// Column name.
    pub name: String,
    /// Column data type.
    pub dtype: String,
    /// User-supplied annotation, preserved across re-adds.
    pub metadata: Option<String>,
}

impl View for MetadataField {
    type V = FieldView;

    open spec fn view(&self) -> FieldView {
        FieldView {
            name: self.name@,
            dtype: self.dtype@,
            metadata: match self.metadata {
                Some(s) => Some(s@),
                None => None,
            },
        }
    }
}

impl Clone for MetadataField {
    fn clone(&self) -> (r: Self)
        ensures
            r@ == self@,
    {
        MetadataField {
            name: self.name.clone(),
            dtype: self.dtype.clone(),
            metadata: clone_opt_string(&self.metadata),
        }
    }
}

/// View of a schema: the views of its fields in order.
pub open spec fn fields_view(fields: Seq<MetadataField>) -> Seq<FieldView> {
    fields.map(|i: int, f: MetadataField| f@)
}

/// The schema of a tabular file.
pub struct MetadataSchema {
    pub fields: Vec<MetadataField>,
}

impl View for MetadataSchema {
    type V = Seq<FieldView>;

    open spec fn view(&self) -> Seq<FieldView> {
        fields_view(self.fields@)
    }
}

impl Clone for MetadataSchema {
    fn clone(&self) -> (r: Self)
        ensures
            r@ == self@,
    {
        let mut fields: Vec<MetadataField> = Vec::new();
        let mut i: usize = 0;
        while i < self.fields.len()
            invariant
                i <= self.fields@.len(),
                fields@.len() == i,
                forall|j: int| 0 <= j < i ==> fields@[j]@ == self.fields@[j]@,
            decreases self.fields@.len() - i,
        {
            fields.push(self.fields[i].clone());
            i = i + 1;
        }
        let r = MetadataSchema { fields };
        proof {
            assert(r@ =~= self@);
        }
        r
    }
}

/// Data-type-specific metadata of a tabular file.
pub struct TabularMetadata {
    pub schema: MetadataSchema,
}

impl View for TabularMetadata {
    type V = Seq<FieldView>;

    open spec fn view(&self) -> Seq<FieldView> {
        self.schema@
    }
}

impl Clone for TabularMetadata {
    fn clone(&self) -> (r: Self)
        ensures
            r@ == self@,
    {
        TabularMetadata { schema: self.schema.clone() }
    }
}

/// Data-type-specific metadata of a text file.
#[derive(Clone, Copy, Debug, PartialEq, Eq, Structural)]
pub struct TextMetadata {
    pub num_lines: u64,
    pub num_chars: u64,
}

/// View of data-type-specific metadata.
pub enum MetaView {
    Tabular(Seq<FieldView>),
    Text(TextMetadata),
}

/// Data-type-specific metadata carried by a file node.
pub enum GenericMetadata {
    MetadataTabular(TabularMetadata),
    MetadataText(TextMetadata),
}

impl View for GenericMetadata {
    type V = MetaView;

    open spec fn view(&self) -> MetaView {
        match self {
            GenericMetadata::MetadataTabular(t) => MetaView::Tabular(t@),
            GenericMetadata::MetadataText(t) => MetaView::Text(*t),
        }
    }
}

impl Clone for GenericMetadata {
    fn clone(&self) -> (r: Self)
        ensures
            r@ == self@,
    {
        match self {
            GenericMetadata::MetadataTabular(t) => GenericMetadata::MetadataTabular(t.clone()),
            GenericMetadata::MetadataText(t) => GenericMetadata::MetadataText(*t),
        }
    }
}

/// View of optional metadata.
pub open spec fn opt_meta_view(m: Option<GenericMetadata>) -> Option<MetaView> {
    match m {
        Some(meta) => Some(meta@),
        None => None,
    }
}

/// Clones optional metadata.
pub fn clone_opt_metadata(v: &Option<GenericMetadata>) -> (r: Option<GenericMetadata>)
    ensures
        opt_meta_view(r) == opt_meta_view(*v),
        r is Some == v is Some,
{
    match v {
        Some(m) => Some(m.clone()),
        None => None,
    }
}

/// View of a file node.
pub struct FileNodeView {
    pub name: Seq<char>,
    pub hash: u128,
    pub combined_hash: u128,
    pub metadata_hash: Option<u128>,
    pub num_bytes: u64,
    pub last_modified_seconds: i64,
    pub last_modified_nanoseconds: u32,
    pub data_type: EntryDataType,
    pub metadata: Option<MetaView>,
    pub mime_type: Seq<char>,
    pub extension: Seq<char>,
}

/// The Merkle-tree leaf for a file.
pub struct FileNode {
    /// Path of the file relative to its parent directory node.
    pub name: String,
    /// Content hash of the file's bytes.
    pub hash: MerkleHash,
    /// Combined hash of metadata hash and content hash.
    pub combined_hash: MerkleHash,
    /// Hash of the metadata, when metadata is present.
    pub metadata_hash: Option<MerkleHash>,
    /// Size of the file in bytes.
    pub num_bytes: u64,
    /// Filesystem modification time at ingest, seconds part.
    pub last_modified_seconds: i64,
    /// Filesystem modification time at ingest, nanoseconds part.
    pub last_modified_nanoseconds: u32,
    /// Broad data type of the file.
    pub data_type: EntryDataType,
    /// Data-type-specific metadata.
    pub metadata: Option<GenericMetadata>,
    /// Mime type string, such as `text/plain`.
    pub mime_type: String,
    /// File extension without the dot.
    pub extension: String,
}

/// View of an optional hash.
pub open spec fn opt_hash_view(h: Option<MerkleHash>) -> Option<u128> {
    match h {
        Some(x) => Some(x.spec_value()),
        None => None,
    }
}

impl View for FileNode {
    type V = FileNodeView;

    open spec fn view(&self) -> FileNodeView {
        FileNodeView {
            name: self.name@,
            hash: self.hash.spec_value(),
            combined_hash: self.combined_hash.spec_value(),
            metadata_hash: opt_hash_view(self.metadata_hash),
            num_bytes: self.num_bytes,
            last_modified_seconds: self.last_modified_seconds,
            last_modified_nanoseconds: self.last_modified_nanoseconds,
            data_type: self.data_type,
            metadata: opt_meta_view(self.metadata),
            mime_type: self.mime_type@,
            extension: self.extension@,
        }
    }
}

impl Clone for FileNode {
    fn clone(&self) -> (r: Self)
        ensures
            r@ == self@,
    {
        FileNode {
            name: self.name.clone(),
            hash: self.hash,
            combined_hash: self.combined_hash,
            metadata_hash: self.metadata_hash,
            num_bytes: self.num_bytes,
            last_modified_seconds: self.last_modified_seconds,
            last_modified_nanoseconds: self.last_modified_nanoseconds,
            data_type: self.data_type,
            metadata: clone_opt_metadata(&self.metadata),
            mime_type: self.mime_type.clone(),
            extension: self.extension.clone(),
        }
    }
}

/// The Merkle-tree node for a directory. Only its path matters to the
/// staged-entry writer.
pub struct DirNode {
    /// Path of the directory relative to the repository root.
    pub name: String,
}

impl View for DirNode {
    type V = Seq<char>;

    open spec fn view(&self) -> Seq<char> {
        self.name@
    }
}

impl Clone for DirNode {
    fn clone(&self) -> (r: Self)
        ensures
            r@ == self@,
    {
        DirNode { name: self.name.clone() }
    }
}

/// View of a Merkle-tree node.
pub enum NodeView {
    File(FileNodeView),
    Directory(Seq<char>),
}

/// A Merkle-tree node: either a file leaf or a directory.
pub enum MerkleTreeNode {
    File(FileNode),
    Directory(DirNode),
}

impl View for MerkleTreeNode {
    type V = NodeView;

    open spec fn view(&self) -> NodeView {
        match self {
            MerkleTreeNode::File(f) => NodeView::File(f@),
            MerkleTreeNode::Directory(d) => NodeView::Directory(d@),
        }
    }
}

impl Clone for MerkleTreeNode {
    fn clone(&self) -> (r: Self)
        ensures
            r@ == self@,
    {
        match self {
            MerkleTreeNode::File(f) => MerkleTreeNode::File(f.clone()),
            MerkleTreeNode::Directory(d) => MerkleTreeNode::Directory(d.clone()),
        }
    }
}

/// View of a staged entry.
pub struct StagedNodeView {
    pub status: StagedEntryStatus,
    pub node: NodeView,
}

/// A staged entry: a node together with its staging status, keyed in the
/// staged database by the node's relative path.
pub struct StagedMerkleTreeNode {
    pub status: StagedEntryStatus,
    pub node: MerkleTreeNode,
}

impl View for StagedMerkleTreeNode {
    type V = StagedNodeView;

    open spec fn view(&self) -> StagedNodeView {
        StagedNodeView { status: self.status, node: self.node@ }
    }
}

impl Clone for StagedMerkleTreeNode {
    fn clone(&self) -> (r: Self)
        ensures
            r@ == self@,
    {
        StagedMerkleTreeNode { status: self.status, node: self.node.clone() }
    }
}

impl StagedMerkleTreeNode {
    /// The default staged entry for a directory at the given path.
    pub fn default_dir_from_path(path: &str) -> (r: Self)
        ensures
            r@.status == StagedEntryStatus::Added,
            r@.node == NodeView::Directory(path@),
    {
        StagedMerkleTreeNode {
            status: StagedEntryStatus::Added,
            node: MerkleTreeNode::Directory(DirNode { name: path.to_owned() }),
        }
    }
}

/// View of a commit.
pub struct CommitView {
    pub id: Seq<char>,
    pub parent_ids: Seq<Seq<char>>,
    pub message: Seq<char>,
    pub author: Seq<char>,
    pub timestamp: i64,
}

/// A commit: its identifier, parents, message and authorship. The tree the
/// commit points at is kept separately, keyed by the commit id.
pub struct Commit {
    pub id: String,
    pub parent_ids: Vec<String>,
    pub message: String,
    pub author: String,
    pub timestamp: i64,
}

impl View for Commit {
    type V = CommitView;

    open spec fn view(&self) -> CommitView {
        CommitView {
            id: self.id@,
            parent_ids: self.parent_ids@.map(|i: int, s: String| s@),
            message: self.message@,
            author: self.author@,
            timestamp: self.timestamp,
        }
    }
}

impl Clone for Commit {
    fn clone(&self) -> (r: Self)
        ensures
            r@ == self@,
    {
        let r = Commit {
            id: self.id.clone(),
            parent_ids: clone_string_vec(&self.parent_ids),
            message: self.message.clone(),
            author: self.author.clone(),
            timestamp: self.timestamp,
        };
        proof {
            assert(r@.parent_ids =~= self@.parent_ids);
        }
        r
    }
}

/// View of a working-tree file.
pub struct WorkingFileView {
    pub bytes: Seq<u8>,
    pub mtime_seconds: i64,
    pub mtime_nanoseconds: u32,
}

/// A file of the working tree: its bytes and filesystem modification time.
pub struct WorkingFile {
    pub bytes: Vec<u8>,
    pub mtime_seconds: i64,
    pub mtime_nanoseconds: u32,
}

impl View for WorkingFile {
    type V = WorkingFileView;

    open spec fn view(&self) -> WorkingFileView {
        WorkingFileView {
            bytes: self.bytes@,
            mtime_seconds: self.mtime_seconds,
            mtime_nanoseconds: self.mtime_nanoseconds,
        }
    }
}

/// View of a merge-conflict record.
pub struct ConflictView {
    pub merge_entry_path: Seq<char>,
    pub base_hash: Option<u128>,
    pub head_hash: Option<u128>,
    pub merge_hash: Option<u128>,
}

/// A recorded merge conflict, keyed in the conflict database by the path of
/// its merge entry.
pub struct NodeMergeConflict {
    /// Path of the conflicted file relative to the repository root.
    pub merge_entry_path: String,
    /// Content hash of the common base side, when the base had the file.
    pub base_hash: Option<MerkleHash>,
    /// Content hash of the current head side, when it has the file.
    pub head_hash: Option<MerkleHash>,
    /// Content hash of the side being merged in, when it has the file.
    pub merge_hash: Option<MerkleHash>,
}

impl View for NodeMergeConflict {
    type V = ConflictView;

    open spec fn view(&self) -> ConflictView {
        ConflictView {
            merge_entry_path: self.merge_entry_path@,
            base_hash: opt_hash_view(self.base_hash),
            head_hash: opt_hash_view(self.head_hash),
            merge_hash: opt_hash_view(self.merge_hash),
        }
    }
}

impl Clone for NodeMergeConflict {
    fn clone(&self) -> (r: Self)
        ensures
            r@ == self@,
    {
        NodeMergeConflict {
            merge_entry_path: self.merge_entry_path.clone(),
            base_hash: self.base_hash,
            head_hash: self.head_hash,
            merge_hash: self.merge_hash,
        }
    }
}

} // verus!
