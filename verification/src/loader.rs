//! The top-level chunk loop: chunk identifiers, chunk kinds, the opaque
//! chunk skip, the diagnostic name table, and the loader that drives the
//! schema and table readers across a whole stream.

use vstd::prelude::*;

use crate::base_readers::{
    be_value, gamma_err, gamma_ok, gamma_size, gamma_value, read_be, read_gamma,
};
use crate::common::{is_suffix_of, LoadError};
use crate::save_file::SaveFile;
use crate::table_reader::{
    fields_view, items_view, lemma_fields_view_push, lemma_read_sparse_table_len,
    lemma_read_table_header_len, lemma_read_table_len, read_sparse_table, read_table,
    read_table_header, spec_read_sparse_table, spec_read_table, spec_read_table_header, DataType,
    Field, FieldView, TableItem, TableItemView, VarType,
};

verus! {

/// The chunk whose records carry a synthetic flag byte after their declared
/// schema: the game-script configuration chunk, tagged "GSDT" on the wire.
pub const CUSTOM_DATA_CHUNK_ID: u32 = 0x4753_4454;

/// The kind of one chunk, from the low four bits of its type byte.
#[derive(Debug, Clone, Copy, PartialEq, Eq, Structural)]
pub enum ChunkType {
    Riff,
    Array,
    SparseArray,
    Table,
    SparseTable,
}

/// Which chunk kind the low four bits of a type byte name.
pub open spec fn spec_chunk_type_from(b: u8) -> Result<ChunkType, LoadError> {
    let t = b & 0x0f;
    if t == 0 {
        Ok(ChunkType::Riff)
    } else if t == 1 {
        Ok(ChunkType::Array)
    } else if t == 2 {
        Ok(ChunkType::SparseArray)
    } else if t == 3 {
        Ok(ChunkType::Table)
    } else if t == 4 {
        Ok(ChunkType::SparseTable)
    } else {
        Err(LoadError::UnknownChunkKind(t))
    }
}

impl ChunkType {
    /// Reads one type byte and decodes its low four bits.
    pub fn read_from<S: SaveFile>(reader: &mut S) -> (r: Result<ChunkType, LoadError>)
        requires
            old(reader).wf(),
        ensures
            final(reader).wf(),
            match r {
                Ok(t) => old(reader).bytes().len() >= 1 && spec_chunk_type_from(
                    old(reader).bytes()[0],
                ) == Ok::<ChunkType, LoadError>(t) && final(reader).bytes() == old(reader).bytes().skip(1),
                Err(e) => (old(reader).bytes().len() == 0 && e == LoadError::UnexpectedEnd
                    && final(reader).bytes() == old(reader).bytes()) || (old(reader).bytes().len() >= 1 && spec_chunk_type_from(old(reader).bytes()[0])
                    == Err::<ChunkType, LoadError>(e) && final(reader).bytes() == old(reader).bytes().skip(1)),
            },
    {
        let byte = match reader.read_u8() {
            Ok(b) => b,
            Err(e) => {
                return Err(e);
            },
        };
        let tag = byte & 0x0f;
        if tag == 0 {
            Ok(ChunkType::Riff)
        } else if tag == 1 {
            Ok(ChunkType::Array)
        } else if tag == 2 {
            Ok(ChunkType::SparseArray)
        } else if tag == 3 {
            Ok(ChunkType::Table)
        } else if tag == 4 {
            Ok(ChunkType::SparseTable)
        } else {
            Err(LoadError::UnknownChunkKind(tag))
        }
    }

    /// True iff chunks of this kind carry a schema block before their data.
    pub fn has_table_header(&self) -> (r: bool)
        ensures
            r == (self is Table || self is SparseTable),
    {
        match self {
            ChunkType::Table | ChunkType::SparseTable => true,
            _ => false,
        }
    }
}

/// The numeric form of a 4-character chunk identifier: its bytes read
/// big-endian, so the identifier "AIPL" and the number 0x4149504c are the
/// same name.
pub fn chunk_id_from_bytes(bytes: &[u8; 4]) -> (r: u32)
    ensures
        r as nat == be_value(bytes@),
{
    proof {
        let b = bytes@;
        assert(be_value(Seq::<u8>::empty()) == 0);
        assert(be_value(b.take(1)) == b[0] as nat) by {
            assert(b.take(1).drop_last() =~= Seq::<u8>::empty());
            assert(b.take(1).last() == b[0]);
        }
        assert(be_value(b.take(2)) == b[0] as nat * 0x100 + b[1] as nat) by {
            assert(b.take(2).drop_last() =~= b.take(1));
            assert(b.take(2).last() == b[1]);
        }
        assert(be_value(b.take(3)) == b[0] as nat * 0x1_0000 + b[1] as nat * 0x100 + b[2] as nat)
            by {
            assert(b.take(3).drop_last() =~= b.take(2));
            assert(b.take(3).last() == b[2]);
        }
        assert(be_value(b.take(4)) == b[0] as nat * 0x100_0000 + b[1] as nat * 0x1_0000
            + b[2] as nat * 0x100 + b[3] as nat) by {
            assert(b.take(4).drop_last() =~= b.take(3));
            assert(b.take(4).last() == b[3]);
        }
        assert(b.take(4) =~= b);
    }
    (bytes[0] as u32) * 0x100_0000 + (bytes[1] as u32) * 0x1_0000 + (bytes[2] as u32) * 0x100 + (
    bytes[3] as u32)
}

/// The human-readable name of a chunk identifier, for diagnostics only. An
/// identifier that is not in the table simply has no friendly name; that is
/// never an error.
pub open spec fn spec_chunk_name(id: u32) -> Option<Seq<char>> {
    if id == 0x4149504cu32 {
        Some("AI companies"@)
    } else if id == 0x414e4954u32 {
        Some("Animated tiles"@)
    } else if id == 0x45524e57u32 {
        Some("Engine renewal"@)
    } else if id == 0x434d444cu32 {
        Some("Cargo deliveries"@)
    } else if id == 0x434d5055u32 {
        Some("Cargo pickups"@)
    } else if id == 0x43415041u32 {
        Some("Cargo packets"@)
    } else if id == 0x43485453u32 {
        Some("Cheats used"@)
    } else if id == 0x504c5952u32 {
        Some("Player companies"@)
    } else if id == 0x44455054u32 {
        Some("Depots"@)
    } else if id == 0x50524943u32 {
        Some("Prices"@)
    } else if id == 0x43415052u32 {
        Some("Cargo payment rates (only in pre 126 savegames)"@)
    } else if id == 0x45434d59u32 {
        Some("Economy variables"@)
    } else if id == 0x43415059u32 {
        Some("Cargo payments"@)
    } else if id == 0x454e474eu32 {
        Some("Engines"@)
    } else if id == 0x454e4753u32 {
        Some("Engine ID mappings (legacy)"@)
    } else if id == 0x45494453u32 {
        Some("Engine ID mappings"@)
    } else if id == 0x47534454u32 {
        Some("Game script configs"@)
    } else if id == 0x47535452u32 {
        Some("Game strings"@)
    } else if id == 0x474c4f47u32 {
        Some("Game log"@)
    } else if id == 0x474f414cu32 {
        Some("Goals"@)
    } else if id == 0x47525053u32 {
        Some("Groups (of vehicles?)"@)
    } else if id == 0x494e4459u32 {
        Some("Industries"@)
    } else if id == 0x49424c44u32 {
        Some("Industry builder"@)
    } else if id == 0x4954424cu32 {
        Some("Industry type build data"@)
    } else if id == 0x5241494cu32 {
        Some("Rail type labels"@)
    } else if id == 0x4c454145u32 {
        Some("League table elements"@)
    } else if id == 0x4c454154u32 {
        Some("League tables"@)
    } else if id == 0x4c475250u32 {
        Some("Link graphs"@)
    } else if id == 0x4c47524au32 {
        Some("Link graph jobs"@)
    } else if id == 0x4c475253u32 {
        Some("Link graph schedule"@)
    } else if id == 0x4d415053u32 {
        Some("Map size"@)
    } else if id == 0x4d415054u32 {
        Some("Map tile types"@)
    } else if id == 0x4d415048u32 {
        Some("Map tile heights"@)
    } else if id == 0x4d41504fu32 {
        Some("Map tile ownership information"@)
    } else if id == 0x4d415032u32 {
        Some("Map tile indices of towns, industries and stations"@)
    } else if id == 0x4d334c4fu32 {
        Some("Map tile general purpose"@)
    } else if id == 0x4d334849u32 {
        Some("Map tile general purpose"@)
    } else if id == 0x4d415035u32 {
        Some("Map tile general purpose"@)
    } else if id == 0x4d415045u32 {
        Some("Map tile general purpose"@)
    } else if id == 0x4d415037u32 {
        Some("Map tile NewGRF support"@)
    } else if id == 0x4d415038u32 {
        Some("Map tile general purpose"@)
    } else if id == 0x44415445u32 {
        Some("Ingame date"@)
    } else if id == 0x56494557u32 {
        Some("Viewport info"@)
    } else if id == 0x4e475246u32 {
        Some("Loaded NewGRFs"@)
    } else if id == 0x4f424a53u32 {
        Some("Map objects"@)
    } else if id == 0x4f524452u32 {
        Some("Orders"@)
    } else if id == 0x4f52444cu32 {
        Some("Order lists"@)
    } else if id == 0x424b4f52u32 {
        Some("Order backups"@)
    } else if id == 0x4f505453u32 {
        Some("Settings (legacy)"@)
    } else if id == 0x50415453u32 {
        Some("Settings"@)
    } else if id == 0x5349474eu32 {
        Some("Signs"@)
    } else if id == 0x53544e53u32 {
        Some("Stations (legacy)"@)
    } else if id == 0x53544e4eu32 {
        Some("Stations"@)
    } else if id == 0x524f4144u32 {
        Some("Road stops"@)
    } else if id == 0x50534143u32 {
        Some("Persistent storage"@)
    } else if id == 0x53545045u32 {
        Some("Story page elements"@)
    } else if id == 0x53545041u32 {
        Some("Story pages"@)
    } else if id == 0x4e414d45u32 {
        Some("Old names (legacy)"@)
    } else if id == 0x53554253u32 {
        Some("Subsidies"@)
    } else if id == 0x43495459u32 {
        Some("Towns"@)
    } else if id == 0x56454853u32 {
        Some("Vehicles"@)
    } else if id == 0x43484b50u32 {
        Some("Waypoints (legacy)"@)
    } else if id == 0x41544944u32 {
        Some("_airporttile_mngr"@)
    } else if id == 0x41504944u32 {
        Some("_airport_mngr"@)
    } else if id == 0x49494453u32 {
        Some("_industry_mngr"@)
    } else if id == 0x54494453u32 {
        Some("_industile_mngr"@)
    } else if id == 0x4f424944u32 {
        Some("_object_mngr"@)
    } else if id == 0x48494453u32 {
        Some("_house_mngr"@)
    } else {
        None
    }
}

/// Looks up the human-readable chunk name; diagnostics only, never part of a
/// decoding decision.
pub fn chunk_name_of(id: u32) -> (r: Option<&'static str>)
    ensures
        match r {
            Some(s) => spec_chunk_name(id) matches Some(v) && s@ == v,
            None => spec_chunk_name(id) is None,
        },
{
    if id == 0x4149504c {
        Some("AI companies")
    } else if id == 0x414e4954 {
        Some("Animated tiles")
    } else if id == 0x45524e57 {
        Some("Engine renewal")
    } else if id == 0x434d444c {
        Some("Cargo deliveries")
    } else if id == 0x434d5055 {
        Some("Cargo pickups")
    } else if id == 0x43415041 {
        Some("Cargo packets")
    } else if id == 0x43485453 {
        Some("Cheats used")
    } else if id == 0x504c5952 {
        Some("Player companies")
    } else if id == 0x44455054 {
        Some("Depots")
    } else if id == 0x50524943 {
        Some("Prices")
    } else if id == 0x43415052 {
        Some("Cargo payment rates (only in pre 126 savegames)")
    } else if id == 0x45434d59 {
        Some("Economy variables")
    } else if id == 0x43415059 {
        Some("Cargo payments")
    } else if id == 0x454e474e {
        Some("Engines")
    } else if id == 0x454e4753 {
        Some("Engine ID mappings (legacy)")
    } else if id == 0x45494453 {
        Some("Engine ID mappings")
    } else if id == 0x47534454 {
        Some("Game script configs")
    } else if id == 0x47535452 {
        Some("Game strings")
    } else if id == 0x474c4f47 {
        Some("Game log")
    } else if id == 0x474f414c {
        Some("Goals")
    } else if id == 0x47525053 {
        Some("Groups (of vehicles?)")
    } else if id == 0x494e4459 {
        Some("Industries")
    } else if id == 0x49424c44 {
        Some("Industry builder")
    } else if id == 0x4954424c {
        Some("Industry type build data")
    } else if id == 0x5241494c {
        Some("Rail type labels")
    } else if id == 0x4c454145 {
        Some("League table elements")
    } else if id == 0x4c454154 {
        Some("League tables")
    } else if id == 0x4c475250 {
        Some("Link graphs")
    } else if id == 0x4c47524a {
        Some("Link graph jobs")
    } else if id == 0x4c475253 {
        Some("Link graph schedule")
    } else if id == 0x4d415053 {
        Some("Map size")
    } else if id == 0x4d415054 {
        Some("Map tile types")
    } else if id == 0x4d415048 {
        Some("Map tile heights")
    } else if id == 0x4d41504f {
        Some("Map tile ownership information")
    } else if id == 0x4d415032 {
        Some("Map tile indices of towns, industries and stations")
    } else if id == 0x4d334c4f {
        Some("Map tile general purpose")
    } else if id == 0x4d334849 {
        Some("Map tile general purpose")
    } else if id == 0x4d415035 {
        Some("Map tile general purpose")
    } else if id == 0x4d415045 {
        Some("Map tile general purpose")
    } else if id == 0x4d415037 {
        Some("Map tile NewGRF support")
    } else if id == 0x4d415038 {
        Some("Map tile general purpose")
    } else if id == 0x44415445 {
        Some("Ingame date")
    } else if id == 0x56494557 {
        Some("Viewport info")
    } else if id == 0x4e475246 {
        Some("Loaded NewGRFs")
    } else if id == 0x4f424a53 {
        Some("Map objects")
    } else if id == 0x4f524452 {
        Some("Orders")
    } else if id == 0x4f52444c {
        Some("Order lists")
    } else if id == 0x424b4f52 {
        Some("Order backups")
    } else if id == 0x4f505453 {
        Some("Settings (legacy)")
    } else if id == 0x50415453 {
        Some("Settings")
    } else if id == 0x5349474e {
        Some("Signs")
    } else if id == 0x53544e53 {
        Some("Stations (legacy)")
    } else if id == 0x53544e4e {
        Some("Stations")
    } else if id == 0x524f4144 {
        Some("Road stops")
    } else if id == 0x50534143 {
        Some("Persistent storage")
    } else if id == 0x53545045 {
        Some("Story page elements")
    } else if id == 0x53545041 {
        Some("Story pages")
    } else if id == 0x4e414d45 {
        Some("Old names (legacy)")
    } else if id == 0x53554253 {
        Some("Subsidies")
    } else if id == 0x43495459 {
        Some("Towns")
    } else if id == 0x56454853 {
        Some("Vehicles")
    } else if id == 0x43484b50 {
        Some("Waypoints (legacy)")
    } else if id == 0x41544944 {
        Some("_airporttile_mngr")
    } else if id == 0x41504944 {
        Some("_airport_mngr")
    } else if id == 0x49494453 {
        Some("_industry_mngr")
    } else if id == 0x54494453 {
        Some("_industile_mngr")
    } else if id == 0x4f424944 {
        Some("_object_mngr")
    } else if id == 0x48494453 {
        Some("_house_mngr")
    } else {
        None
    }
}

/// Reads and discards exactly `n` bytes of opaque chunk data.
pub fn skip_bytes<S: SaveFile>(save_file: &mut S, n: u64) -> (r: Result<(), LoadError>)
    requires
        old(save_file).wf(),
    ensures
        final(save_file).wf(),
        match r {
            Ok(()) => n <= old(save_file).bytes().len() && final(save_file).bytes() == old(save_file).bytes().skip(n as int),
            Err(e) => old(save_file).bytes().len() < n && e == LoadError::UnexpectedEnd && final(save_file).bytes() == old(save_file).bytes(),
        },
{
    if n > usize::MAX as u64 {
        proof {
            save_file.bytes_bounded();
        }
        return Err(LoadError::UnexpectedEnd);
    }
    match save_file.read_exact(n as usize) {
        Ok(_) => Ok(()),
        Err(e) => Err(e),
    }
}

/// One loaded chunk: its identifier and its records, in wire order.
///
/// The loaded chunks form a mapping keyed by identifier, kept as an ordered
/// list of entries. If a stream named the same identifier twice, both
/// occurrences would be kept in wire order; a caller folding the list into a
/// keyed map decides which occurrence wins.
#[derive(Debug, PartialEq)]
pub struct LoadedChunk {
    pub id: u32,
    pub items: Vec<TableItem>,
}

pub open spec fn chunk_view(c: LoadedChunk) -> (nat, Seq<TableItemView>) {
    (c.id as nat, items_view(c.items@))
}

pub open spec fn chunks_view(cs: Seq<LoadedChunk>) -> Seq<(nat, Seq<TableItemView>)>
    decreases cs,
{
    if cs.len() == 0 {
        Seq::empty()
    } else {
        seq![chunk_view(cs.first())] + chunks_view(cs.drop_first())
    }
}

pub proof fn lemma_chunks_view(cs: Seq<LoadedChunk>)
    ensures
        chunks_view(cs).len() == cs.len(),
        forall|i: int| 0 <= i < cs.len() ==> #[trigger] chunks_view(cs)[i] == chunk_view(cs[i]),
    decreases cs.len(),
{
    if cs.len() > 0 {
        lemma_chunks_view(cs.drop_first());
    }
}

pub proof fn lemma_chunks_view_push(cs: Seq<LoadedChunk>, c: LoadedChunk)
    ensures
        chunks_view(cs.push(c)) == chunks_view(cs).push(chunk_view(c)),
{
    lemma_chunks_view(cs.push(c));
    lemma_chunks_view(cs);
    assert(chunks_view(cs.push(c)) =~= chunks_view(cs).push(chunk_view(c)));
}

/// The synthetic flag field appended to the schema of the one well-known
/// chunk; it is not present on the wire.
pub open spec fn custom_data_field_view() -> FieldView {
    FieldView {
        key: "hasCustomData"@,
        var_type: VarType::Scalar(DataType::U8),
        children: Option::None,
    }
}

/// One structured chunk's payload after its type byte: the schema block
/// length (which must be positive), the schema, the well-known chunk's
/// synthetic extra field, and the table of records.
pub open spec fn spec_load_table_chunk(id: nat, sparse: bool, body: Seq<u8>) -> Result<
    (Seq<TableItemView>, nat),
    LoadError,
> {
    if !gamma_ok(body) {
        Err(gamma_err(body))
    } else if gamma_value(body) == 0 {
        Err(LoadError::ZeroLengthSchemaBlock)
    } else {
        let g = gamma_size(body);
        let header_bytes = body.skip(g as int);
        match spec_read_table_header(header_bytes) {
            Err(e) => Err(e),
            Ok(ph) => {
                let fields = if id == CUSTOM_DATA_CHUNK_ID {
                    ph.0 + seq![custom_data_field_view()]
                } else {
                    ph.0
                };
                let data = header_bytes.skip(ph.1 as int);
                let tbl = if sparse {
                    spec_read_sparse_table(fields, data)
                } else {
                    spec_read_table(fields, data)
                };
                match tbl {
                    Err(e) => Err(e),
                    Ok(pt) => Ok((pt.0, (g + ph.1 + pt.1) as nat)),
                }
            },
        }
    }
}

/// A structured chunk's payload occupies at least one byte and at most the
/// whole input.
pub proof fn lemma_load_table_chunk_len(id: nat, sparse: bool, body: Seq<u8>)
    ensures
        spec_load_table_chunk(id, sparse, body) matches Ok(p) ==> 1 <= p.1 && p.1 <= body.len(),
{
    if gamma_ok(body) && gamma_value(body) != 0 {
        let g = gamma_size(body);
        let header_bytes = body.skip(g as int);
        lemma_read_table_header_len(header_bytes);
        match spec_read_table_header(header_bytes) {
            Err(_) => {},
            Ok(ph) => {
                let fields = if id == CUSTOM_DATA_CHUNK_ID {
                    ph.0 + seq![custom_data_field_view()]
                } else {
                    ph.0
                };
                let data = header_bytes.skip(ph.1 as int);
                if sparse {
                    lemma_read_sparse_table_len(fields, data);
                } else {
                    lemma_read_table_len(fields, data);
                }
            },
        }
    }
}

/// The whole chunk stream at the front of `s`: chunk after chunk until the
/// all-zero identifier, which is consumed. Structured chunks contribute their
/// identifier and records, in wire order, one entry per occurrence of an
/// identifier; opaque chunks are skipped over by their 3-byte length; the
/// two chunk kinds with no modelled length convention fail distinctly rather
/// than corrupt what follows.
pub open spec fn spec_load(s: Seq<u8>) -> Result<(Seq<(nat, Seq<TableItemView>)>, nat), LoadError>
    decreases s.len(),
{
    if s.len() < 4 {
        Err(LoadError::UnexpectedEnd)
    } else if be_value(s.take(4)) == 0 {
        Ok((Seq::empty(), 4))
    } else if s.len() < 5 {
        Err(LoadError::UnexpectedEnd)
    } else {
        let id = be_value(s.take(4));
        match spec_chunk_type_from(s[4]) {
            Err(e) => Err(e),
            Ok(t) => {
                let body = s.skip(5);
                if t is Riff {
                    if body.len() < 3 {
                        Err(LoadError::UnexpectedEnd)
                    } else {
                        let riff_len: nat = (body[0] * 0x1_0000 + be_value(
                            body.subrange(1, 3),
                        )) as nat;
                        if body.len() < 3 + riff_len {
                            Err(LoadError::UnexpectedEnd)
                        } else {
                            match spec_load(s.skip(8 + riff_len as int)) {
                                Err(e) => Err(e),
                                Ok(p) => Ok((p.0, (8 + riff_len + p.1) as nat)),
                            }
                        }
                    }
                } else if t is Array {
                    Err(LoadError::UnimplementedChunkKind(1))
                } else if t is SparseArray {
                    Err(LoadError::UnimplementedChunkKind(2))
                } else {
                    match spec_load_table_chunk(id, t is SparseTable, body) {
                        Err(e) => Err(e),
                        Ok(pc) => {
                            proof {
                                lemma_load_table_chunk_len(id, t is SparseTable, body);
                            }
                            match spec_load(s.skip(5 + pc.1 as int)) {
                                Err(e) => Err(e),
                                Ok(pl) => Ok(
                                    (seq![(id, pc.0)] + pl.0, (5 + pc.1 + pl.1) as nat),
                                ),
                            }
                        },
                    }
                }
            },
        }
    }
}

/// A chunk of the array or sparse-array kind always fails the load with its
/// own distinct error: no length convention is modelled for these kinds, so
/// skipping one silently would corrupt every chunk after it.
pub proof fn lemma_unimplemented_chunk_kind_fails(s: Seq<u8>)
    requires
        s.len() >= 5,
        be_value(s.take(4)) != 0,
        s[4] & 0x0f == 1 || s[4] & 0x0f == 2,
    ensures
        spec_load(s) == Err::<(Seq<(nat, Seq<TableItemView>)>, nat), LoadError>(
            LoadError::UnimplementedChunkKind(s[4] & 0x0f),
        ),
{
}

/// Reads one structured chunk's payload: schema block length, schema, the
/// well-known chunk's synthetic extra field, then the dense or sparse table.
#[verifier::rlimit(60)]
#[verifier::loop_isolation(false)]
fn load_table_chunk<S: SaveFile>(save_file: &mut S, chunk_id: u32, sparse: bool) -> (r: Result<
    Vec<TableItem>,
    LoadError,
>)
    requires
        old(save_file).wf(),
    ensures
        final(save_file).wf(),
        match r {
            Ok(items) => spec_load_table_chunk(chunk_id as nat, sparse, old(save_file).bytes())
                matches Ok(p) && items_view(items@) == p.0 && final(save_file).bytes() == old(
                save_file,
            ).bytes().skip(p.1 as int),
            Err(e) => spec_load_table_chunk(chunk_id as nat, sparse, old(save_file).bytes())
                matches Err(e2) && e == e2 && is_suffix_of(
                final(save_file).bytes(),
                old(save_file).bytes(),
            ),
        },
{
    let ghost body = old(save_file).bytes();
    let table_header_length = match read_gamma(save_file) {
        Ok(v) => v,
        Err(e) => {
            return Err(e);
        },
    };
    if table_header_length == 0 {
        proof {
            crate::common::lemma_skip_is_suffix(body, gamma_size(body) as int);
        }
        return Err(LoadError::ZeroLengthSchemaBlock);
    }
    let ghost g = gamma_size(body);
    let ghost header_bytes = body.skip(g as int);
    let mut fields = match read_table_header(save_file) {
        Ok(fs) => fs,
        Err(e) => {
            proof {
                crate::common::lemma_skip_is_suffix(body, g as int);
                crate::common::lemma_suffix_trans(save_file.bytes(), header_bytes, body);
            }
            return Err(e);
        },
    };
    let ghost ph = spec_read_table_header(header_bytes)->Ok_0;
    if chunk_id == CUSTOM_DATA_CHUNK_ID {
        let ghost before = fields@;
        let extra = Field::new_custom_data();
        proof {
            lemma_fields_view_push(before, extra);
            assert(fields_view(before).push(custom_data_field_view()) =~= ph.0 + seq![
                custom_data_field_view(),
            ]);
        }
        fields.push(extra);
    }
    let ghost used_fields = fields_view(fields@);
    let ghost data = header_bytes.skip(ph.1 as int);
    proof {
        lemma_read_table_header_len(header_bytes);
        assert(data =~= body.skip((g + ph.1) as int));
    }
    let items = if sparse {
        match read_sparse_table(save_file, fields) {
            Ok(its) => its,
            Err(e) => {
                proof {
                    crate::common::lemma_skip_is_suffix(body, (g + ph.1) as int);
                    crate::common::lemma_suffix_trans(save_file.bytes(), data, body);
                }
                return Err(e);
            },
        }
    } else {
        match read_table(save_file, fields) {
            Ok(its) => its,
            Err(e) => {
                proof {
                    crate::common::lemma_skip_is_suffix(body, (g + ph.1) as int);
                    crate::common::lemma_suffix_trans(save_file.bytes(), data, body);
                }
                return Err(e);
            },
        }
    };
    proof {
        let pt = if sparse {
            spec_read_sparse_table(used_fields, data)->Ok_0
        } else {
            spec_read_table(used_fields, data)->Ok_0
        };
        if sparse {
            lemma_read_sparse_table_len(used_fields, data);
        } else {
            lemma_read_table_len(used_fields, data);
        }
        assert(data.skip(pt.1 as int) =~= body.skip((g + ph.1 + pt.1) as int));
    }
    Ok(items)
}

/// Decodes a whole chunk stream: reads chunk identifiers and type bytes,
/// loads structured chunks through the schema and table readers, skips
/// opaque chunks, and stops at the all-zero identifier. Any failure aborts
/// the load with no partial result.
#[verifier::rlimit(100)]
#[verifier::loop_isolation(false)]
pub fn load_file<S: SaveFile>(save_file: &mut S) -> (r: Result<Vec<LoadedChunk>, LoadError>)
    requires
        old(save_file).wf(),
    ensures
        final(save_file).wf(),
        match r {
            Ok(chunks) => spec_load(old(save_file).bytes()) matches Ok(p) && chunks_view(chunks@)
                == p.0 && final(save_file).bytes() == old(save_file).bytes().skip(p.1 as int),
            Err(e) => spec_load(old(save_file).bytes()) matches Err(e2) && e == e2 && is_suffix_of(
                final(save_file).bytes(),
                old(save_file).bytes(),
            ),
        },
{
    let ghost s0 = old(save_file).bytes();
    let mut chunks: Vec<LoadedChunk> = Vec::new();
    let ghost mut consumed: nat = 0;
    proof {
        assert(s0.skip(0) =~= s0);
        assert(chunks@ =~= Seq::<LoadedChunk>::empty());
        match spec_load(s0) {
            Ok(p) => {
                assert(chunks_view(chunks@) + p.0 =~= p.0);
            },
            Err(_) => {},
        }
    }
    let mut terminated = false;
    while !terminated
        invariant
            save_file.wf(),
            consumed + save_file.bytes().len() == s0.len(),
            save_file.bytes() == s0.skip(consumed as int),
            !terminated ==> ({
                let rem = spec_load(save_file.bytes());
                let total = spec_load(s0);
                match rem {
                    Ok(p) => total == Ok::<(Seq<(nat, Seq<TableItemView>)>, nat), LoadError>((chunks_view(chunks@) + p.0, consumed + p.1)),
                    Err(e) => total == Err::<(Seq<(nat, Seq<TableItemView>)>, nat), LoadError>(e),
                }
            }),
            terminated ==> (spec_load(s0) matches Ok(p) && chunks_view(chunks@) == p.0 && consumed
                == p.1),
        decreases save_file.bytes().len(),
    {
        let ghost cur = save_file.bytes();
        let id64 = match read_be(save_file, 4) {
            Ok(v) => v,
            Err(e) => {
                proof {
                    crate::common::lemma_skip_is_suffix(s0, consumed as int);
                }
                return Err(e);
            },
        };
        let chunk_id = id64 as u32;
        proof {
            crate::base_readers::lemma_pow256_values();
        }
        if chunk_id == 0 {
            proof {
                match spec_load(s0) {
                    Ok(p) => {
                        assert(chunks_view(chunks@) + Seq::<(nat, Seq<TableItemView>)>::empty()
                            =~= chunks_view(chunks@));
                    },
                    Err(_) => {},
                }
                consumed = consumed + 4;
                assert(save_file.bytes() =~= s0.skip(consumed as int));
            }
            terminated = true;
            continue;
        }
        let chunk_type = match ChunkType::read_from(save_file) {
            Ok(t) => t,
            Err(e) => {
                proof {
                    if cur.len() > 4 {
                        assert(cur.skip(4)[0] == cur[4]);
                    }
                    crate::common::lemma_skip_is_suffix(s0, (consumed + 4) as int);
                    crate::common::lemma_suffix_trans(save_file.bytes(), cur.skip(4), s0);
                }
                return Err(e);
            },
        };
        let ghost body = cur.skip(5);
        proof {
            assert(cur.skip(4)[0] == cur[4]);
            assert(cur.skip(4).skip(1) =~= body);
            assert(body =~= s0.skip((consumed + 5) as int));
        }
        match chunk_type {
            ChunkType::Array => {
                proof {
                    crate::common::lemma_skip_is_suffix(s0, (consumed + 5) as int);
                }
                return Err(LoadError::UnimplementedChunkKind(1));
            },
            ChunkType::SparseArray => {
                proof {
                    crate::common::lemma_skip_is_suffix(s0, (consumed + 5) as int);
                }
                return Err(LoadError::UnimplementedChunkKind(2));
            },
            ChunkType::Riff => {
                let hi = match save_file.read_u8() {
                    Ok(b) => b,
                    Err(e) => {
                        proof {
                            crate::common::lemma_skip_is_suffix(s0, (consumed + 5) as int);
                        }
                        return Err(e);
                    },
                };
                let lo = match read_be(save_file, 2) {
                    Ok(v) => v,
                    Err(e) => {
                        proof {
                            crate::common::lemma_skip_is_suffix(s0, (consumed + 6) as int);
                            assert(body.skip(1) =~= s0.skip((consumed + 6) as int));
                            crate::common::lemma_suffix_trans(
                                save_file.bytes(),
                                body.skip(1),
                                s0,
                            );
                        }
                        return Err(e);
                    },
                };
                let riff_len = (hi as u64) * 0x1_0000 + lo;
                proof {
                    assert(body.skip(1).take(2) =~= body.subrange(1, 3));
                    assert(body.skip(1).skip(2) =~= body.skip(3));
                    assert(body.skip(3) =~= s0.skip((consumed + 8) as int));
                }
                match skip_bytes(save_file, riff_len) {
                    Ok(()) => {},
                    Err(e) => {
                        proof {
                            crate::common::lemma_skip_is_suffix(s0, (consumed + 8) as int);
                        }
                        return Err(e);
                    },
                }
                proof {
                    assert(body.skip(3).skip(riff_len as int) =~= s0.skip(
                        (consumed + 8 + riff_len) as int,
                    ));
                    assert(cur.skip((8 + riff_len) as int) =~= s0.skip(
                        (consumed + 8 + riff_len) as int,
                    ));
                    consumed = consumed + 8 + riff_len as nat;
                }
            },
            ChunkType::Table | ChunkType::SparseTable => {
                let sparse = match chunk_type {
                    ChunkType::SparseTable => true,
                    _ => false,
                };
                let items = match load_table_chunk(save_file, chunk_id, sparse) {
                    Ok(its) => its,
                    Err(e) => {
                        proof {
                            crate::common::lemma_skip_is_suffix(s0, (consumed + 5) as int);
                            crate::common::lemma_suffix_trans(save_file.bytes(), body, s0);
                        }
                        return Err(e);
                    },
                };
                let chunk = LoadedChunk { id: chunk_id, items };
                proof {
                    let pc = spec_load_table_chunk(chunk_id as nat, sparse, body)->Ok_0;
                    lemma_load_table_chunk_len(chunk_id as nat, sparse, body);
                    assert(body.skip(pc.1 as int) =~= s0.skip((consumed + 5 + pc.1) as int));
                    assert(cur.skip((5 + pc.1) as int) =~= s0.skip((consumed + 5 + pc.1) as int));
                    lemma_chunks_view_push(chunks@, chunk);
                    match spec_load(cur.skip((5 + pc.1) as int)) {
                        Ok(p2) => {
                            assert(chunks_view(chunks@) + (seq![(id64 as nat, pc.0)] + p2.0)
                                =~= chunks_view(chunks@.push(chunk)) + p2.0);
                        },
                        Err(_) => {},
                    }
                    consumed = consumed + 5 + pc.1;
                }
                chunks.push(chunk);
            },
        }
    }
    Ok(chunks)
}

} // verus!
