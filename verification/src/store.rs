//! The relational model: the six tables of the schema as in-memory rows
//! of plain values, with the integrity invariants the storage layer
//! guarantees — unique primary keys, unique tag names, and foreign keys
//! from chunks, links and citations back to their owners.

use vstd::prelude::*;

use crate::adapters::MAX_TIMESTAMP_SECS;

verus! {

/// A vault row: identity, settings, and the key-custody columns — the
/// master-password hash, the derivation salt, and the vault key wrapped
/// under the password-derived key.
pub struct VaultRow {
    pub id: String,
    pub name: String,
    pub description: Option<String>,
    pub encryption_enabled: bool,
    pub created_at: u64,
    pub updated_at: u64,
    pub password_hash: String,
    pub key_salt: Vec<u8>,
    pub encrypted_key: Vec<u8>,
}

/// A memory row: one user-authored note.
pub struct MemoryRow {
    pub id: String,
    pub vault_id: String,
    pub title: Option<String>,
    pub content: String,
    pub source: Option<String>,
    pub created_at: u64,
    pub updated_at: u64,
}

/// A chunk row: one retrievable slice of a memory's content. The
/// positions are chunk-index-based offsets, one hundred units per chunk.
pub struct ChunkRow {
    pub id: String,
    pub memory_id: String,
    pub content: String,
    pub start_pos: u64,
    pub end_pos: u64,
    pub created_at: u64,
}

/// A tag row: a unique name with an optional colour.
pub struct TagRow {
    pub id: String,
    pub name: String,
    pub color: Option<String>,
    pub created_at: u64,
}

/// A link between a memory and a tag.
pub struct MemoryTagRow {
    pub memory_id: String,
    pub tag_id: String,
}

/// A citation row: a scored reference from a memory to one of its
/// chunks. The score is in thousandths of the unit scale.
pub struct CitationRow {
    pub id: String,
    pub memory_id: String,
    pub chunk_id: String,
    pub relevance_score: u32,
    pub created_at: u64,
}

/// An embedding row, reserved for future vector search; nothing in the
/// present retrieval path populates it.
pub struct EmbeddingRow {
    pub id: String,
    pub chunk_id: String,
    pub vector: Vec<u8>,
    pub model_name: String,
    pub created_at: u64,
}

/// The tables of the schema. Creating a store is the idempotent schema
/// initialisation: every table starts empty.
pub struct Store {
    pub vaults: Vec<VaultRow>,
    pub memories: Vec<MemoryRow>,
    pub chunks: Vec<ChunkRow>,
    pub tags: Vec<TagRow>,
    pub memory_tags: Vec<MemoryTagRow>,
    pub citations: Vec<CitationRow>,
    pub embeddings: Vec<EmbeddingRow>,
}

/// The old rows stand unchanged at the front of the new table.
pub open spec fn rows_prefix<T>(older: Seq<T>, newer: Seq<T>) -> bool {
    older.len() <= newer.len() && forall|i: int| 0 <= i < older.len() ==> newer[i] == older[i]
}

/// Whether some memory row carries the id.
pub open spec fn has_memory(ms: Seq<MemoryRow>, id: Seq<char>) -> bool {
    exists|i: int| 0 <= i < ms.len() && (#[trigger] ms[i]).id@ == id
}

/// Whether some chunk row carries the id.
pub open spec fn has_chunk(cs: Seq<ChunkRow>, id: Seq<char>) -> bool {
    exists|i: int| 0 <= i < cs.len() && (#[trigger] cs[i]).id@ == id
}

/// Whether some tag row carries the name.
pub open spec fn has_tag_named(ts: Seq<TagRow>, name: Seq<char>) -> bool {
    exists|i: int| 0 <= i < ts.len() && (#[trigger] ts[i]).name@ == name
}

/// Whether some tag row carries the id.
pub open spec fn has_tag_id(ts: Seq<TagRow>, id: Seq<char>) -> bool {
    exists|i: int| 0 <= i < ts.len() && (#[trigger] ts[i]).id@ == id
}

/// The id of the first tag row carrying the name.
pub open spec fn tag_id_of(ts: Seq<TagRow>, name: Seq<char>) -> Seq<char>
    decreases ts.len(),
{
    if ts.len() == 0 {
        Seq::empty()
    } else if ts[0].name@ == name {
        ts[0].id@
    } else {
        tag_id_of(ts.skip(1), name)
    }
}

/// Whether a memory-tag link is present.
pub open spec fn has_link(ls: Seq<MemoryTagRow>, memory_id: Seq<char>, tag_id: Seq<char>) -> bool {
    exists|i: int|
        0 <= i < ls.len() && (#[trigger] ls[i]).memory_id@ == memory_id && ls[i].tag_id@ == tag_id
}

/// A memory is tagged with a name when a tag row carries the name and a
/// link ties the memory to that row.
pub open spec fn memory_has_tag(
    ts: Seq<TagRow>,
    ls: Seq<MemoryTagRow>,
    memory_id: Seq<char>,
    name: Seq<char>,
) -> bool {
    has_tag_named(ts, name) && has_link(ls, memory_id, tag_id_of(ts, name))
}

impl Store {
    /// Memory ids are unique: the table's primary key.
    pub open spec fn memory_ids_unique(&self) -> bool {
        forall|i: int, j: int|
            0 <= i < j < self.memories@.len() ==> (#[trigger] self.memories@[i]).id@ != (
            #[trigger] self.memories@[j]).id@
    }

    /// Chunk ids are unique: the table's primary key.
    pub open spec fn chunk_ids_unique(&self) -> bool {
        forall|i: int, j: int|
            0 <= i < j < self.chunks@.len() ==> (#[trigger] self.chunks@[i]).id@ != (
            #[trigger] self.chunks@[j]).id@
    }

    /// Tag ids and tag names are unique: the table's primary key and its
    /// uniqueness constraint on the name.
    pub open spec fn tags_unique(&self) -> bool {
        forall|i: int, j: int|
            0 <= i < j < self.tags@.len() ==> (#[trigger] self.tags@[i]).id@ != (
            #[trigger] self.tags@[j]).id@ && self.tags@[i].name@ != self.tags@[j].name@
    }

    /// Memory-tag links are unique pairs: the join table's primary key.
    pub open spec fn links_unique(&self) -> bool {
        forall|i: int, j: int|
            0 <= i < j < self.memory_tags@.len() ==> !((#[trigger] self.memory_tags@[i]).memory_id@
                == (#[trigger] self.memory_tags@[j]).memory_id@ && self.memory_tags@[i].tag_id@
                == self.memory_tags@[j].tag_id@)
    }

    /// Every chunk belongs to a present memory.
    pub open spec fn chunks_owned(&self) -> bool {
        forall|i: int|
            0 <= i < self.chunks@.len() ==> has_memory(
                self.memories@,
                (#[trigger] self.chunks@[i]).memory_id@,
            )
    }

    /// Every link ties a present memory to a present tag.
    pub open spec fn links_owned(&self) -> bool {
        forall|i: int|
            0 <= i < self.memory_tags@.len() ==> has_memory(
                self.memories@,
                (#[trigger] self.memory_tags@[i]).memory_id@,
            ) && has_tag_id(self.tags@, self.memory_tags@[i].tag_id@)
    }

    /// Every citation cites a present memory through one of that
    /// memory's own chunks.
    pub open spec fn citations_owned(&self) -> bool {
        forall|i: int|
            0 <= i < self.citations@.len() ==> has_memory(
                self.memories@,
                (#[trigger] self.citations@[i]).memory_id@,
            ) && (exists|j: int|
                0 <= j < self.chunks@.len() && (#[trigger] self.chunks@[j]).id@
                    == self.citations@[i].chunk_id@ && self.chunks@[j].memory_id@
                    == self.citations@[i].memory_id@)
    }

    /// Every stored timestamp stays renderable as a four-digit-year
    /// RFC 3339 text.
    pub open spec fn timestamps_ok(&self) -> bool {
        &&& forall|i: int|
            0 <= i < self.memories@.len() ==> (#[trigger] self.memories@[i]).created_at
                <= MAX_TIMESTAMP_SECS && self.memories@[i].updated_at <= MAX_TIMESTAMP_SECS
        &&& forall|i: int|
            0 <= i < self.vaults@.len() ==> (#[trigger] self.vaults@[i]).created_at
                <= MAX_TIMESTAMP_SECS && self.vaults@[i].updated_at <= MAX_TIMESTAMP_SECS
    }

    /// The store invariant: unique keys, unique tag names, foreign keys
    /// intact, timestamps renderable.
    pub open spec fn wf(&self) -> bool {
        &&& self.memory_ids_unique()
        &&& self.chunk_ids_unique()
        &&& self.tags_unique()
        &&& self.links_unique()
        &&& self.chunks_owned()
        &&& self.links_owned()
        &&& self.citations_owned()
        &&& self.timestamps_ok()
    }

    /// Initialises the schema: all tables empty and the invariant holds.
    pub fn new() -> (r: Store)
        ensures
            r.wf(),
            r.vaults@.len() == 0,
            r.memories@.len() == 0,
            r.chunks@.len() == 0,
            r.tags@.len() == 0,
            r.memory_tags@.len() == 0,
            r.citations@.len() == 0,
            r.embeddings@.len() == 0,
    {
        Store {
            vaults: Vec::new(),
            memories: Vec::new(),
            chunks: Vec::new(),
            tags: Vec::new(),
            memory_tags: Vec::new(),
            citations: Vec::new(),
            embeddings: Vec::new(),
        }
    }
}

/// Ownership carries over to a store whose memory and tag tables only
/// grew and whose chunk, link and citation tables are unchanged.
pub proof fn lemma_owned_grow(a: &Store, b: &Store)
    requires
        a.chunks_owned(),
        a.links_owned(),
        a.citations_owned(),
        rows_prefix(a.memories@, b.memories@),
        rows_prefix(a.tags@, b.tags@),
        b.chunks@ == a.chunks@,
        b.memory_tags@ == a.memory_tags@,
        b.citations@ == a.citations@,
    ensures
        b.chunks_owned(),
        b.links_owned(),
        b.citations_owned(),
{
    assert forall|i: int| 0 <= i < b.chunks@.len() implies has_memory(
        b.memories@,
        (#[trigger] b.chunks@[i]).memory_id@,
    ) by {
        let j = choose|j: int|
            0 <= j < a.memories@.len() && (#[trigger] a.memories@[j]).id@ == a.chunks@[i].memory_id@;
        assert(b.memories@[j].id@ == b.chunks@[i].memory_id@);
    }
    assert forall|i: int| 0 <= i < b.memory_tags@.len() implies has_memory(
        b.memories@,
        (#[trigger] b.memory_tags@[i]).memory_id@,
    ) && has_tag_id(b.tags@, b.memory_tags@[i].tag_id@) by {
        let j = choose|j: int|
            0 <= j < a.memories@.len() && (#[trigger] a.memories@[j]).id@
                == a.memory_tags@[i].memory_id@;
        assert(b.memories@[j].id@ == b.memory_tags@[i].memory_id@);
        let k = choose|k: int|
            0 <= k < a.tags@.len() && (#[trigger] a.tags@[k]).id@ == a.memory_tags@[i].tag_id@;
        assert(b.tags@[k].id@ == b.memory_tags@[i].tag_id@);
    }
    assert forall|i: int| 0 <= i < b.citations@.len() implies has_memory(
        b.memories@,
        (#[trigger] b.citations@[i]).memory_id@,
    ) && (exists|j: int|
        0 <= j < b.chunks@.len() && (#[trigger] b.chunks@[j]).id@ == b.citations@[i].chunk_id@
            && b.chunks@[j].memory_id@ == b.citations@[i].memory_id@) by {
        let j = choose|j: int|
            0 <= j < a.memories@.len() && (#[trigger] a.memories@[j]).id@
                == a.citations@[i].memory_id@;
        assert(b.memories@[j].id@ == b.citations@[i].memory_id@);
        let k = choose|k: int|
            0 <= k < a.chunks@.len() && (#[trigger] a.chunks@[k]).id@ == a.citations@[i].chunk_id@
                && a.chunks@[k].memory_id@ == a.citations@[i].memory_id@;
        assert(0 <= k < b.chunks@.len() && b.chunks@[k].id@ == b.citations@[i].chunk_id@
            && b.chunks@[k].memory_id@ == b.citations@[i].memory_id@);
    }
}

/// Citation ownership carries over when memories and chunks only grow
/// and the citations are unchanged.
pub proof fn lemma_citations_owned_grow(a: &Store, b: &Store)
    requires
        a.citations_owned(),
        rows_prefix(a.memories@, b.memories@),
        rows_prefix(a.chunks@, b.chunks@),
        b.citations@ == a.citations@,
    ensures
        b.citations_owned(),
{
    assert forall|i: int| 0 <= i < b.citations@.len() implies has_memory(
        b.memories@,
        (#[trigger] b.citations@[i]).memory_id@,
    ) && (exists|j: int|
        0 <= j < b.chunks@.len() && (#[trigger] b.chunks@[j]).id@ == b.citations@[i].chunk_id@
            && b.chunks@[j].memory_id@ == b.citations@[i].memory_id@) by {
        let j = choose|j: int|
            0 <= j < a.memories@.len() && (#[trigger] a.memories@[j]).id@
                == a.citations@[i].memory_id@;
        assert(b.memories@[j].id@ == b.citations@[i].memory_id@);
        let k = choose|k: int|
            0 <= k < a.chunks@.len() && (#[trigger] a.chunks@[k]).id@ == a.citations@[i].chunk_id@
                && a.chunks@[k].memory_id@ == a.citations@[i].memory_id@;
        assert(0 <= k < b.chunks@.len() && b.chunks@[k].id@ == b.citations@[i].chunk_id@
            && b.chunks@[k].memory_id@ == b.citations@[i].memory_id@);
    }
}

/// Link ownership carries over when memories and tags only grow and the
/// links are unchanged.
pub proof fn lemma_links_owned_grow(a: &Store, b: &Store)
    requires
        a.links_owned(),
        rows_prefix(a.memories@, b.memories@),
        rows_prefix(a.tags@, b.tags@),
        b.memory_tags@ == a.memory_tags@,
    ensures
        b.links_owned(),
{
    assert forall|i: int| 0 <= i < b.memory_tags@.len() implies has_memory(
        b.memories@,
        (#[trigger] b.memory_tags@[i]).memory_id@,
    ) && has_tag_id(b.tags@, b.memory_tags@[i].tag_id@) by {
        let j = choose|j: int|
            0 <= j < a.memories@.len() && (#[trigger] a.memories@[j]).id@
                == a.memory_tags@[i].memory_id@;
        assert(b.memories@[j].id@ == b.memory_tags@[i].memory_id@);
        let k = choose|k: int|
            0 <= k < a.tags@.len() && (#[trigger] a.tags@[k]).id@ == a.memory_tags@[i].tag_id@;
        assert(b.tags@[k].id@ == b.memory_tags@[i].tag_id@);
    }
}

/// Chunk ownership carries over when memories only grow and the chunks
/// are unchanged.
pub proof fn lemma_chunks_owned_grow(a: &Store, b: &Store)
    requires
        a.chunks_owned(),
        rows_prefix(a.memories@, b.memories@),
        b.chunks@ == a.chunks@,
    ensures
        b.chunks_owned(),
{
    assert forall|i: int| 0 <= i < b.chunks@.len() implies has_memory(
        b.memories@,
        (#[trigger] b.chunks@[i]).memory_id@,
    ) by {
        let j = choose|j: int|
            0 <= j < a.memories@.len() && (#[trigger] a.memories@[j]).id@
                == a.chunks@[i].memory_id@;
        assert(b.memories@[j].id@ == b.chunks@[i].memory_id@);
    }
}

/// Citation ownership carries over when citations and chunks are
/// unchanged and every memory id stays present.
pub proof fn lemma_citations_owned_memories_kept(a: &Store, b: &Store)
    requires
        a.citations_owned(),
        b.citations@ == a.citations@,
        b.chunks@ == a.chunks@,
        forall|x: Seq<char>| #[trigger] has_memory(a.memories@, x) ==> has_memory(b.memories@, x),
    ensures
        b.citations_owned(),
{
    assert forall|i: int| 0 <= i < b.citations@.len() implies has_memory(
        b.memories@,
        (#[trigger] b.citations@[i]).memory_id@,
    ) && (exists|j: int|
        0 <= j < b.chunks@.len() && (#[trigger] b.chunks@[j]).id@ == b.citations@[i].chunk_id@
            && b.chunks@[j].memory_id@ == b.citations@[i].memory_id@) by {
        assert(has_memory(a.memories@, a.citations@[i].memory_id@));
        let ch = choose|ch: int|
            0 <= ch < a.chunks@.len() && (#[trigger] a.chunks@[ch]).id@ == a.citations@[i].chunk_id@
                && a.chunks@[ch].memory_id@ == a.citations@[i].memory_id@;
        assert(0 <= ch < b.chunks@.len() && b.chunks@[ch].id@ == b.citations@[i].chunk_id@
            && b.chunks@[ch].memory_id@ == b.citations@[i].memory_id@);
    }
}

/// The store invariant carries over to a store whose six data tables
/// are unchanged and whose vault rows keep renderable timestamps.
pub proof fn lemma_wf_same_tables(a: &Store, b: &Store)
    requires
        a.wf(),
        b.memories@ == a.memories@,
        b.chunks@ == a.chunks@,
        b.tags@ == a.tags@,
        b.memory_tags@ == a.memory_tags@,
        b.citations@ == a.citations@,
        forall|i: int|
            0 <= i < b.vaults@.len() ==> (#[trigger] b.vaults@[i]).created_at <= MAX_TIMESTAMP_SECS
                && b.vaults@[i].updated_at <= MAX_TIMESTAMP_SECS,
    ensures
        b.wf(),
{
    lemma_owned_grow(a, b);
    assert forall|i: int, j: int|
        0 <= i < j < b.memories@.len() implies (#[trigger] b.memories@[i]).id@ != (
    #[trigger] b.memories@[j]).id@ by {
        assert(a.memories@[i].id@ != a.memories@[j].id@);
    }
    assert forall|i: int, j: int|
        0 <= i < j < b.chunks@.len() implies (#[trigger] b.chunks@[i]).id@ != (
    #[trigger] b.chunks@[j]).id@ by {
        assert(a.chunks@[i].id@ != a.chunks@[j].id@);
    }
    assert forall|i: int, j: int|
        0 <= i < j < b.tags@.len() implies (#[trigger] b.tags@[i]).id@ != (#[trigger] b.tags@[j]).id@
            && b.tags@[i].name@ != b.tags@[j].name@ by {
        assert(a.tags@[i].id@ != a.tags@[j].id@ && a.tags@[i].name@ != a.tags@[j].name@);
    }
    assert forall|i: int, j: int|
        0 <= i < j < b.memory_tags@.len() implies !((#[trigger] b.memory_tags@[i]).memory_id@ == (
    #[trigger] b.memory_tags@[j]).memory_id@ && b.memory_tags@[i].tag_id@
        == b.memory_tags@[j].tag_id@) by {
        assert(!(a.memory_tags@[i].memory_id@ == a.memory_tags@[j].memory_id@
            && a.memory_tags@[i].tag_id@ == a.memory_tags@[j].tag_id@));
    }
    assert forall|i: int|
        0 <= i < b.memories@.len() implies (#[trigger] b.memories@[i]).created_at
            <= MAX_TIMESTAMP_SECS && b.memories@[i].updated_at <= MAX_TIMESTAMP_SECS by {
        assert(a.memories@[i].created_at <= MAX_TIMESTAMP_SECS && a.memories@[i].updated_at
            <= MAX_TIMESTAMP_SECS);
    }
}

/// Tag idempotency, as the invariant enforces it: two tag rows that
/// carry the same name are one and the same row, so resolving a tag
/// name can never create a duplicate.
pub proof fn lemma_tag_row_unique(st: &Store, i: int, j: int)
    requires
        st.wf(),
        0 <= i < st.tags@.len(),
        0 <= j < st.tags@.len(),
        st.tags@[i].name@ == st.tags@[j].name@,
    ensures
        i == j,
{
}

/// A present tag name resolves to a present tag id.
pub proof fn lemma_tag_id_present(ts: Seq<TagRow>, name: Seq<char>)
    requires
        has_tag_named(ts, name),
    ensures
        has_tag_id(ts, tag_id_of(ts, name)),
    decreases ts.len(),
{
    if ts[0].name@ == name {
        assert(has_tag_id(ts, ts[0].id@));
    } else {
        let i = choose|i: int| 0 <= i < ts.len() && (#[trigger] ts[i]).name@ == name;
        assert(ts.skip(1)[i - 1].name@ == name);
        assert(has_tag_named(ts.skip(1), name));
        lemma_tag_id_present(ts.skip(1), name);
        let j = choose|j: int|
            0 <= j < ts.skip(1).len() && (#[trigger] ts.skip(1)[j]).id@ == tag_id_of(
                ts.skip(1),
                name,
            );
        assert(ts[j + 1].id@ == tag_id_of(ts, name));
        assert(has_tag_id(ts, tag_id_of(ts, name)));
    }
}

/// Under unique names, the row a name resolves to is the row that
/// carries it.
pub proof fn lemma_tag_id_of_row(ts: Seq<TagRow>, i: int)
    requires
        forall|a: int, b: int|
            0 <= a < b < ts.len() ==> (#[trigger] ts[a]).name@ != (#[trigger] ts[b]).name@,
        0 <= i < ts.len(),
    ensures
        has_tag_named(ts, ts[i].name@),
        tag_id_of(ts, ts[i].name@) == ts[i].id@,
    decreases ts.len(),
{
    assert(has_tag_named(ts, ts[i].name@));
    if i == 0 {
    } else {
        assert(ts[0].name@ != ts[i].name@);
        assert(forall|a: int, b: int|
            0 <= a < b < ts.skip(1).len() ==> (#[trigger] ts.skip(1)[a]).name@ != (
            #[trigger] ts.skip(1)[b]).name@);
        lemma_tag_id_of_row(ts.skip(1), i - 1);
        assert(ts.skip(1)[i - 1] == ts[i]);
    }
}

/// Resolving a name against a grown tag table yields the same tag id,
/// as long as the names stay unique: the resolution is stable.
pub proof fn lemma_tag_id_stable(small: Seq<TagRow>, big: Seq<TagRow>, name: Seq<char>)
    requires
        small.len() <= big.len(),
        forall|i: int| 0 <= i < small.len() ==> big[i] == small[i],
        has_tag_named(small, name),
    ensures
        has_tag_named(big, name),
        tag_id_of(big, name) == tag_id_of(small, name),
    decreases small.len(),
{
    let i = choose|i: int| 0 <= i < small.len() && (#[trigger] small[i]).name@ == name;
    assert(big[i].name@ == name);
    assert(has_tag_named(big, name));
    if small[0].name@ == name {
        assert(big[0] == small[0]);
    } else {
        assert(small.skip(1)[i - 1].name@ == name);
        assert(has_tag_named(small.skip(1), name));
        assert(forall|k: int|
            0 <= k < small.skip(1).len() ==> big.skip(1)[k] == #[trigger] small.skip(1)[k]);
        lemma_tag_id_stable(small.skip(1), big.skip(1), name);
        assert(big[0] == small[0]);
    }
}

} // verus!
