//! The schema-driven decoding engine: schema entries and their recursive
//! nested schemas, decoded records and their values, the record decoder,
//! and the dense and sparse table readers, each verified against a
//! sequence-level model of the wire format.

use vstd::prelude::*;

use crate::base_readers::{
    be_bytes, be_value, gamma_err, gamma_ok, gamma_size, gamma_value, pow256, read_be, read_gamma,
    read_str, read_str_raw, spec_read_str,
};
use crate::common::{is_suffix_of, LoadError};
use crate::save_file::SaveFile;

verus! {

/// The primitive kind of one schema field, as packed into the low four bits
/// of a schema entry byte. Tag zero is the schema terminator and never names
/// a real field.
#[derive(Debug, Clone, Copy, PartialEq, Eq, Structural)]
pub enum DataType {
    FileEnd,
    I8,
    U8,
    I16,
    U16,
    I32,
    U32,
    I64,
    U64,
    StringId,
    String,
    Struct,
}

/// A field's cardinality joined with its primitive kind: bit 4 of the schema
/// entry byte marks a length-prefixed list.
#[derive(Debug, Clone, Copy, PartialEq, Eq, Structural)]
pub enum VarType {
    Scalar(DataType),
    List(DataType),
}

/// One schema entry: a key, a cardinality with its primitive kind, and, for
/// struct-typed fields only, the nested schema read after the flat list.
#[derive(Debug, PartialEq)]
pub struct Field {
    pub key: String,
    pub var_type: VarType,
    pub children: Option<Vec<Field>>,
}

/// One decoded leaf value, tagged by the `DataType` that produced it.
#[derive(Debug, PartialEq)]
pub enum ParsedFieldContent {
    FileEnd,
    I8(i8),
    U8(u8),
    I16(i16),
    U16(u16),
    I32(i32),
    U32(u32),
    I64(i64),
    U64(u64),
    StringId(u16),
    String(String),
    Struct(TableItem),
}

/// A field's decoded data: one value for scalar fields, many for list fields.
#[derive(Debug, PartialEq)]
pub enum ParsedFieldData {
    Scalar(ParsedFieldContent),
    List(Vec<ParsedFieldContent>),
}

/// One decoded field of a record: the schema key with the decoded data.
#[derive(Debug, PartialEq)]
pub struct ParsedField {
    pub key: String,
    pub data: ParsedFieldData,
}

/// One decoded record: its fields in schema order.
#[derive(Debug, PartialEq)]
pub struct TableItem(pub Vec<ParsedField>);

/// The mathematical shape of a schema entry: `Field` with its containers
/// abstracted to sequences.
pub struct FieldView {
    pub key: Seq<char>,
    pub var_type: VarType,
    pub children: Option<Seq<FieldView>>,
}

/// The mathematical shape of a decoded leaf value.
pub enum ParsedFieldContentView {
    FileEnd,
    I8(i8),
    U8(u8),
    I16(i16),
    U16(u16),
    I32(i32),
    U32(u32),
    I64(i64),
    U64(u64),
    StringId(u16),
    String(Seq<char>),
    Struct(TableItemView),
}

/// The mathematical shape of a field's decoded data.
pub enum ParsedFieldDataView {
    Scalar(ParsedFieldContentView),
    List(Seq<ParsedFieldContentView>),
}

/// The mathematical shape of a decoded field.
pub struct ParsedFieldView {
    pub key: Seq<char>,
    pub data: ParsedFieldDataView,
}

/// The mathematical shape of a decoded record.
pub struct TableItemView {
    pub fields: Seq<ParsedFieldView>,
}

pub open spec fn field_view(f: Field) -> FieldView
    decreases f,
{
    FieldView {
        key: f.key@,
        var_type: f.var_type,
        children: match f.children {
            Option::Some(v) => Option::Some(fields_view(v@)),
            Option::None => Option::None,
        },
    }
}

pub open spec fn fields_view(fs: Seq<Field>) -> Seq<FieldView>
    decreases fs,
{
    if fs.len() == 0 {
        Seq::empty()
    } else {
        seq![field_view(fs.first())] + fields_view(fs.drop_first())
    }
}

pub proof fn lemma_fields_view(fs: Seq<Field>)
    ensures
        fields_view(fs).len() == fs.len(),
        forall|i: int| 0 <= i < fs.len() ==> #[trigger] fields_view(fs)[i] == field_view(fs[i]),
    decreases fs.len(),
{
    if fs.len() > 0 {
        lemma_fields_view(fs.drop_first());
    }
}

pub open spec fn content_view(c: ParsedFieldContent) -> ParsedFieldContentView
    decreases c,
{
    match c {
        ParsedFieldContent::FileEnd => ParsedFieldContentView::FileEnd,
        ParsedFieldContent::I8(v) => ParsedFieldContentView::I8(v),
        ParsedFieldContent::U8(v) => ParsedFieldContentView::U8(v),
        ParsedFieldContent::I16(v) => ParsedFieldContentView::I16(v),
        ParsedFieldContent::U16(v) => ParsedFieldContentView::U16(v),
        ParsedFieldContent::I32(v) => ParsedFieldContentView::I32(v),
        ParsedFieldContent::U32(v) => ParsedFieldContentView::U32(v),
        ParsedFieldContent::I64(v) => ParsedFieldContentView::I64(v),
        ParsedFieldContent::U64(v) => ParsedFieldContentView::U64(v),
        ParsedFieldContent::StringId(v) => ParsedFieldContentView::StringId(v),
        ParsedFieldContent::String(v) => ParsedFieldContentView::String(v@),
        ParsedFieldContent::Struct(t) => ParsedFieldContentView::Struct(item_view(t)),
    }
}

pub open spec fn contents_view(cs: Seq<ParsedFieldContent>) -> Seq<ParsedFieldContentView>
    decreases cs,
{
    if cs.len() == 0 {
        Seq::empty()
    } else {
        seq![content_view(cs.first())] + contents_view(cs.drop_first())
    }
}

pub proof fn lemma_contents_view(cs: Seq<ParsedFieldContent>)
    ensures
        contents_view(cs).len() == cs.len(),
        forall|i: int| 0 <= i < cs.len() ==> #[trigger] contents_view(cs)[i] == content_view(cs[i]),
    decreases cs.len(),
{
    if cs.len() > 0 {
        lemma_contents_view(cs.drop_first());
    }
}

pub open spec fn data_view(d: ParsedFieldData) -> ParsedFieldDataView
    decreases d,
{
    match d {
        ParsedFieldData::Scalar(c) => ParsedFieldDataView::Scalar(content_view(c)),
        ParsedFieldData::List(cs) => ParsedFieldDataView::List(contents_view(cs@)),
    }
}

pub open spec fn parsed_field_view(f: ParsedField) -> ParsedFieldView
    decreases f,
{
    ParsedFieldView { key: f.key@, data: data_view(f.data) }
}

pub open spec fn parsed_fields_view(fs: Seq<ParsedField>) -> Seq<ParsedFieldView>
    decreases fs,
{
    if fs.len() == 0 {
        Seq::empty()
    } else {
        seq![parsed_field_view(fs.first())] + parsed_fields_view(fs.drop_first())
    }
}

pub proof fn lemma_parsed_fields_view(fs: Seq<ParsedField>)
    ensures
        parsed_fields_view(fs).len() == fs.len(),
        forall|i: int|
            0 <= i < fs.len() ==> #[trigger] parsed_fields_view(fs)[i] == parsed_field_view(fs[i]),
    decreases fs.len(),
{
    if fs.len() > 0 {
        lemma_parsed_fields_view(fs.drop_first());
    }
}

pub open spec fn item_view(t: TableItem) -> TableItemView
    decreases t,
{
    TableItemView { fields: parsed_fields_view(t.0@) }
}

pub proof fn lemma_parsed_fields_view_push(fs: Seq<ParsedField>, f: ParsedField)
    ensures
        parsed_fields_view(fs.push(f)) == parsed_fields_view(fs).push(parsed_field_view(f)),
{
    lemma_parsed_fields_view(fs.push(f));
    lemma_parsed_fields_view(fs);
    assert(parsed_fields_view(fs.push(f)) =~= parsed_fields_view(fs).push(parsed_field_view(f)));
}

pub proof fn lemma_contents_view_push(cs: Seq<ParsedFieldContent>, c: ParsedFieldContent)
    ensures
        contents_view(cs.push(c)) == contents_view(cs).push(content_view(c)),
{
    lemma_contents_view(cs.push(c));
    lemma_contents_view(cs);
    assert(contents_view(cs.push(c)) =~= contents_view(cs).push(content_view(c)));
}

/// Which `DataType` the low four bits of a schema entry byte name.
pub open spec fn spec_data_type_from(b: u8) -> Result<DataType, LoadError> {
    if b == 0 {
        Ok(DataType::FileEnd)
    } else if b == 1 {
        Ok(DataType::I8)
    } else if b == 2 {
        Ok(DataType::U8)
    } else if b == 3 {
        Ok(DataType::I16)
    } else if b == 4 {
        Ok(DataType::U16)
    } else if b == 5 {
        Ok(DataType::I32)
    } else if b == 6 {
        Ok(DataType::U32)
    } else if b == 7 {
        Ok(DataType::I64)
    } else if b == 8 {
        Ok(DataType::U64)
    } else if b == 9 {
        Ok(DataType::StringId)
    } else if b == 10 {
        Ok(DataType::String)
    } else if b == 11 {
        Ok(DataType::Struct)
    } else {
        Err(LoadError::UnknownTypeTag(b))
    }
}

/// What a whole schema entry byte means: `None` for the terminator (low four
/// bits zero), otherwise the field kind, a list when bit 4 is set.
pub open spec fn spec_var_type_from(b: u8) -> Result<Option<VarType>, LoadError> {
    if b & 0x0f == 0 {
        Ok(None)
    } else {
        match spec_data_type_from(b & 0x0f) {
            Ok(dt) => Ok(Some(if b & 0x10 != 0 {
                VarType::List(dt)
            } else {
                VarType::Scalar(dt)
            })),
            Err(e) => Err(e),
        }
    }
}

/// The signed reading of the unsigned `k`-byte value `u`: two's complement.
pub open spec fn signed_of(u: nat, k: nat) -> int {
    if u < pow256(k) / 2 {
        u as int
    } else {
        u - pow256(k)
    }
}

/// The scalar value of kind `dt` at the front of `s`, with the number of
/// bytes it occupies. Integers are big-endian; `StringId` is an unresolved
/// unsigned 16-bit index into an external string table. The terminator,
/// inline-string and struct tags have no bare scalar encoding.
pub open spec fn spec_read_value(dt: DataType, s: Seq<u8>) -> Result<
    (ParsedFieldContentView, nat),
    LoadError,
> {
    match dt {
        DataType::FileEnd => Err(LoadError::UnsupportedScalarTag),
        DataType::String => Err(LoadError::UnsupportedScalarTag),
        DataType::Struct => Err(LoadError::UnsupportedScalarTag),
        DataType::I8 => if s.len() < 1 {
            Err(LoadError::UnexpectedEnd)
        } else {
            Ok((ParsedFieldContentView::I8(signed_of(be_value(s.take(1)), 1) as i8), 1))
        },
        DataType::U8 => if s.len() < 1 {
            Err(LoadError::UnexpectedEnd)
        } else {
            Ok((ParsedFieldContentView::U8(be_value(s.take(1)) as u8), 1))
        },
        DataType::I16 => if s.len() < 2 {
            Err(LoadError::UnexpectedEnd)
        } else {
            Ok((ParsedFieldContentView::I16(signed_of(be_value(s.take(2)), 2) as i16), 2))
        },
        DataType::U16 => if s.len() < 2 {
            Err(LoadError::UnexpectedEnd)
        } else {
            Ok((ParsedFieldContentView::U16(be_value(s.take(2)) as u16), 2))
        },
        DataType::I32 => if s.len() < 4 {
            Err(LoadError::UnexpectedEnd)
        } else {
            Ok((ParsedFieldContentView::I32(signed_of(be_value(s.take(4)), 4) as i32), 4))
        },
        DataType::U32 => if s.len() < 4 {
            Err(LoadError::UnexpectedEnd)
        } else {
            Ok((ParsedFieldContentView::U32(be_value(s.take(4)) as u32), 4))
        },
        DataType::I64 => if s.len() < 8 {
            Err(LoadError::UnexpectedEnd)
        } else {
            Ok((ParsedFieldContentView::I64(signed_of(be_value(s.take(8)), 8) as i64), 8))
        },
        DataType::U64 => if s.len() < 8 {
            Err(LoadError::UnexpectedEnd)
        } else {
            Ok((ParsedFieldContentView::U64(be_value(s.take(8)) as u64), 8))
        },
        DataType::StringId => if s.len() < 2 {
            Err(LoadError::UnexpectedEnd)
        } else {
            Ok((ParsedFieldContentView::StringId(be_value(s.take(2)) as u16), 2))
        },
    }
}

/// The decoding of one field of kind `f` at the front of `s`, with the number
/// of bytes consumed.
///
/// A scalar struct field decodes one nested record; any other scalar decodes
/// one value. A list field reads a gamma element count first: a struct list
/// decodes that many nested records; an inline-string list packs one single
/// string whose byte length is the declared count; any other list decodes
/// that many scalar values.
pub open spec fn spec_parse_field(f: FieldView, s: Seq<u8>) -> Result<
    (ParsedFieldView, nat),
    LoadError,
>
    decreases f, 0nat, 0nat,
{
    match f.var_type {
        VarType::List(dt) => {
            if !gamma_ok(s) {
                Err(gamma_err(s))
            } else {
                let n = gamma_value(s);
                let g = gamma_size(s);
                let rest = s.skip(g as int);
                match f.children {
                    Option::Some(ch) => match spec_parse_records(ch, n, rest) {
                        Ok((items, m)) => Ok(
                            (
                                ParsedFieldView {
                                    key: f.key,
                                    data: ParsedFieldDataView::List(
                                        items.map_values(
                                            |t: TableItemView| ParsedFieldContentView::Struct(t),
                                        ),
                                    ),
                                },
                                g + m,
                            ),
                        ),
                        Err(e) => Err(e),
                    },
                    Option::None => {
                        if dt == DataType::String {
                            if n == 0 {
                                Ok(
                                    (
                                        ParsedFieldView {
                                            key: f.key,
                                            data: ParsedFieldDataView::List(Seq::empty()),
                                        },
                                        g,
                                    ),
                                )
                            } else if rest.len() < n {
                                Err(LoadError::UnexpectedEnd)
                            } else {
                                let b = rest.take(n as int);
                                if vstd::utf8::valid_utf8(b) {
                                    Ok(
                                        (
                                            ParsedFieldView {
                                                key: f.key,
                                                data: ParsedFieldDataView::List(
                                                    seq![
                                                        ParsedFieldContentView::String(
                                                            vstd::utf8::decode_utf8(b),
                                                        ),
                                                    ],
                                                ),
                                            },
                                            g + n,
                                        ),
                                    )
                                } else {
                                    Err(LoadError::InvalidUtf8)
                                }
                            }
                        } else {
                            match spec_parse_scalars(dt, n, rest) {
                                Ok((cs, m)) => Ok(
                                    (
                                        ParsedFieldView {
                                            key: f.key,
                                            data: ParsedFieldDataView::List(cs),
                                        },
                                        g + m,
                                    ),
                                ),
                                Err(e) => Err(e),
                            }
                        }
                    },
                }
            }
        },
        VarType::Scalar(dt) => {
            match f.children {
                Option::Some(ch) => match spec_parse_fields(ch, s) {
                    Ok((pfs, m)) => Ok(
                        (
                            ParsedFieldView {
                                key: f.key,
                                data: ParsedFieldDataView::Scalar(
                                    ParsedFieldContentView::Struct(TableItemView { fields: pfs }),
                                ),
                            },
                            m,
                        ),
                    ),
                    Err(e) => Err(e),
                },
                Option::None => match spec_read_value(dt, s) {
                    Ok((c, m)) => Ok(
                        (
                            ParsedFieldView { key: f.key, data: ParsedFieldDataView::Scalar(c) },
                            m,
                        ),
                    ),
                    Err(e) => Err(e),
                },
            }
        },
    }
}

/// The decoding of one record: each field of `fs` in order.
pub open spec fn spec_parse_fields(fs: Seq<FieldView>, s: Seq<u8>) -> Result<
    (Seq<ParsedFieldView>, nat),
    LoadError,
>
    decreases fs, 0nat, 0nat,
{
    if fs.len() == 0 {
        Ok((Seq::empty(), 0))
    } else {
        match spec_parse_field(fs.first(), s) {
            Ok((pf, n)) => match spec_parse_fields(fs.drop_first(), s.skip(n as int)) {
                Ok((pfs, m)) => Ok((seq![pf] + pfs, n + m)),
                Err(e) => Err(e),
            },
            Err(e) => Err(e),
        }
    }
}

/// The decoding of `n` consecutive records of schema `fs`.
pub open spec fn spec_parse_records(fs: Seq<FieldView>, n: nat, s: Seq<u8>) -> Result<
    (Seq<TableItemView>, nat),
    LoadError,
>
    decreases fs, n, 1nat,
{
    if n == 0 {
        Ok((Seq::empty(), 0))
    } else {
        match spec_parse_fields(fs, s) {
            Ok((pfs, m)) => match spec_parse_records(fs, (n - 1) as nat, s.skip(m as int)) {
                Ok((items, m2)) => Ok((seq![TableItemView { fields: pfs }] + items, m + m2)),
                Err(e) => Err(e),
            },
            Err(e) => Err(e),
        }
    }
}

/// The decoding of `n` consecutive scalar values of kind `dt`.
pub open spec fn spec_parse_scalars(dt: DataType, n: nat, s: Seq<u8>) -> Result<
    (Seq<ParsedFieldContentView>, nat),
    LoadError,
>
    decreases n,
{
    if n == 0 {
        Ok((Seq::empty(), 0))
    } else {
        match spec_read_value(dt, s) {
            Ok((c, m)) => match spec_parse_scalars(dt, (n - 1) as nat, s.skip(m as int)) {
                Ok((cs, m2)) => Ok((seq![c] + cs, m + m2)),
                Err(e) => Err(e),
            },
            Err(e) => Err(e),
        }
    }
}

impl DataType {
    /// Decodes the low-four-bit type tag.
    pub fn from_byte(byte: u8) -> (r: Result<DataType, LoadError>)
        ensures
            r == spec_data_type_from(byte),
    {
        match byte {
            0 => Ok(DataType::FileEnd),
            1 => Ok(DataType::I8),
            2 => Ok(DataType::U8),
            3 => Ok(DataType::I16),
            4 => Ok(DataType::U16),
            5 => Ok(DataType::I32),
            6 => Ok(DataType::U32),
            7 => Ok(DataType::I64),
            8 => Ok(DataType::U64),
            9 => Ok(DataType::StringId),
            10 => Ok(DataType::String),
            11 => Ok(DataType::Struct),
            _ => Err(LoadError::UnknownTypeTag(byte)),
        }
    }
}

fn to_i8(u: u64) -> (r: i8)
    requires
        u < 0x100,
    ensures
        r as int == signed_of(u as nat, 1),
{
    proof {
        crate::base_readers::lemma_pow256_values();
    }
    if u < 0x80 {
        u as i8
    } else {
        (u as i16 - 0x100) as i8
    }
}

fn to_i16(u: u64) -> (r: i16)
    requires
        u < 0x1_0000,
    ensures
        r as int == signed_of(u as nat, 2),
{
    proof {
        crate::base_readers::lemma_pow256_values();
    }
    if u < 0x8000 {
        u as i16
    } else {
        (u as i32 - 0x1_0000) as i16
    }
}

fn to_i32(u: u64) -> (r: i32)
    requires
        u < 0x1_0000_0000,
    ensures
        r as int == signed_of(u as nat, 4),
{
    proof {
        crate::base_readers::lemma_pow256_values();
    }
    if u < 0x8000_0000 {
        u as i32
    } else {
        (u as i64 - 0x1_0000_0000) as i32
    }
}

fn to_i64(u: u64) -> (r: i64)
    ensures
        r as int == signed_of(u as nat, 8),
{
    proof {
        crate::base_readers::lemma_pow256_values();
    }
    if u < 0x8000_0000_0000_0000 {
        u as i64
    } else {
        (u as i128 - 0x1_0000_0000_0000_0000) as i64
    }
}

impl DataType {
    /// Decodes one scalar value of this kind from the source.
    pub fn read_from<S: SaveFile>(&self, reader: &mut S) -> (r: Result<
        ParsedFieldContent,
        LoadError,
    >)
        requires
            old(reader).wf(),
        ensures
            final(reader).wf(),
            match r {
                Ok(c) => spec_read_value(*self, old(reader).bytes()) matches Ok(p)
                    && content_view(c) == p.0
                    && final(reader).bytes() == old(reader).bytes().skip(p.1 as int),
                Err(e) => spec_read_value(*self, old(reader).bytes()) matches Err(e2) && e == e2
                    && final(reader).bytes() == old(reader).bytes(),
            },
    {
        proof {
            crate::base_readers::lemma_pow256_values();
        }
        match self {
            DataType::I8 => match read_be(reader, 1) {
                Ok(u) => Ok(ParsedFieldContent::I8(to_i8(u))),
                Err(e) => Err(e),
            },
            DataType::U8 => match read_be(reader, 1) {
                Ok(u) => Ok(ParsedFieldContent::U8(u as u8)),
                Err(e) => Err(e),
            },
            DataType::I16 => match read_be(reader, 2) {
                Ok(u) => Ok(ParsedFieldContent::I16(to_i16(u))),
                Err(e) => Err(e),
            },
            DataType::U16 => match read_be(reader, 2) {
                Ok(u) => Ok(ParsedFieldContent::U16(u as u16)),
                Err(e) => Err(e),
            },
            DataType::I32 => match read_be(reader, 4) {
                Ok(u) => Ok(ParsedFieldContent::I32(to_i32(u))),
                Err(e) => Err(e),
            },
            DataType::U32 => match read_be(reader, 4) {
                Ok(u) => Ok(ParsedFieldContent::U32(u as u32)),
                Err(e) => Err(e),
            },
            DataType::I64 => match read_be(reader, 8) {
                Ok(u) => Ok(ParsedFieldContent::I64(to_i64(u))),
                Err(e) => Err(e),
            },
            DataType::U64 => match read_be(reader, 8) {
                Ok(u) => Ok(ParsedFieldContent::U64(u)),
                Err(e) => Err(e),
            },
            DataType::StringId => match read_be(reader, 2) {
                Ok(u) => Ok(ParsedFieldContent::StringId(u as u16)),
                Err(e) => Err(e),
            },
            _ => Err(LoadError::UnsupportedScalarTag),
        }
    }
}

impl VarType {
    /// Decodes one schema entry byte; `None` is the schema terminator.
    pub fn from_byte(byte: u8) -> (r: Result<Option<VarType>, LoadError>)
        ensures
            r == spec_var_type_from(byte),
    {
        let tag = byte & 0x0f;
        if tag == 0 {
            return Ok(None);
        }
        let data_type = match DataType::from_byte(tag) {
            Ok(dt) => dt,
            Err(e) => {
                return Err(e);
            },
        };
        proof {
            assert((byte as u64 & (1u64 << 4) != 0) == (byte & 0x10 != 0)) by (bit_vector);
        }
        if crate::common::has_bit(byte as u64, 4) {
            Ok(Some(VarType::List(data_type)))
        } else {
            Ok(Some(VarType::Scalar(data_type)))
        }
    }

    /// The primitive kind under either cardinality.
    pub fn data_type(&self) -> (r: DataType)
        ensures
            r == self.spec_data_type(),
    {
        match self {
            VarType::Scalar(data_type) => *data_type,
            VarType::List(data_type) => *data_type,
        }
    }

    pub open spec fn spec_data_type(&self) -> DataType {
        match self {
            VarType::Scalar(dt) => *dt,
            VarType::List(dt) => *dt,
        }
    }
}

pub proof fn lemma_fields_view_push(fs: Seq<Field>, f: Field)
    ensures
        fields_view(fs.push(f)) == fields_view(fs).push(field_view(f)),
{
    lemma_fields_view(fs.push(f));
    lemma_fields_view(fs);
    assert(fields_view(fs.push(f)) =~= fields_view(fs).push(field_view(f)));
}

pub open spec fn items_view(ts: Seq<TableItem>) -> Seq<TableItemView>
    decreases ts,
{
    if ts.len() == 0 {
        Seq::empty()
    } else {
        seq![item_view(ts.first())] + items_view(ts.drop_first())
    }
}

pub proof fn lemma_items_view(ts: Seq<TableItem>)
    ensures
        items_view(ts).len() == ts.len(),
        forall|i: int| 0 <= i < ts.len() ==> #[trigger] items_view(ts)[i] == item_view(ts[i]),
    decreases ts.len(),
{
    if ts.len() > 0 {
        lemma_items_view(ts.drop_first());
    }
}

pub proof fn lemma_items_view_push(ts: Seq<TableItem>, t: TableItem)
    ensures
        items_view(ts.push(t)) == items_view(ts).push(item_view(t)),
{
    lemma_items_view(ts.push(t));
    lemma_items_view(ts);
    assert(items_view(ts.push(t)) =~= items_view(ts).push(item_view(t)));
}

/// A successful parse never consumes more bytes than the input holds.
pub proof fn lemma_parse_field_len(f: FieldView, s: Seq<u8>)
    ensures
        spec_parse_field(f, s) matches Ok(p) ==> p.1 <= s.len(),
    decreases f, 0nat, 0nat,
{
    match f.var_type {
        VarType::List(dt) => {
            if gamma_ok(s) {
                let g = gamma_size(s);
                let rest = s.skip(g as int);
                match f.children {
                    Option::Some(ch) => {
                        lemma_parse_records_len(ch, gamma_value(s), rest);
                    },
                    Option::None => {
                        if dt != DataType::String {
                            lemma_parse_scalars_len(dt, gamma_value(s), rest);
                        }
                    },
                }
            }
        },
        VarType::Scalar(dt) => {
            match f.children {
                Option::Some(ch) => {
                    lemma_parse_fields_len(ch, s);
                },
                Option::None => {},
            }
        },
    }
}

pub proof fn lemma_parse_fields_len(fs: Seq<FieldView>, s: Seq<u8>)
    ensures
        spec_parse_fields(fs, s) matches Ok(p) ==> p.1 <= s.len(),
    decreases fs, 0nat, 0nat,
{
    if fs.len() > 0 {
        lemma_parse_field_len(fs.first(), s);
        match spec_parse_field(fs.first(), s) {
            Ok(p) => {
                lemma_parse_fields_len(fs.drop_first(), s.skip(p.1 as int));
            },
            Err(_) => {},
        }
    }
}

pub proof fn lemma_parse_records_len(fs: Seq<FieldView>, n: nat, s: Seq<u8>)
    ensures
        spec_parse_records(fs, n, s) matches Ok(p) ==> p.1 <= s.len(),
    decreases fs, n, 1nat,
{
    if n > 0 {
        lemma_parse_fields_len(fs, s);
        match spec_parse_fields(fs, s) {
            Ok(p) => {
                lemma_parse_records_len(fs, (n - 1) as nat, s.skip(p.1 as int));
            },
            Err(_) => {},
        }
    }
}

pub proof fn lemma_parse_scalars_len(dt: DataType, n: nat, s: Seq<u8>)
    ensures
        spec_parse_scalars(dt, n, s) matches Ok(p) ==> p.1 <= s.len(),
    decreases n,
{
    if n > 0 {
        match spec_read_value(dt, s) {
            Ok(p) => {
                lemma_parse_scalars_len(dt, (n - 1) as nat, s.skip(p.1 as int));
            },
            Err(_) => {},
        }
    }
}

/// The flat schema pass at the front of `s`: one entry byte and key string
/// per field, ended by a terminator byte, nested schemas not yet attached.
pub open spec fn spec_read_flat(s: Seq<u8>) -> Result<(Seq<FieldView>, nat), LoadError>
    decreases s.len(), 0nat, 0nat,
{
    if s.len() == 0 {
        Err(LoadError::UnexpectedEnd)
    } else {
        match spec_var_type_from(s[0]) {
            Err(e) => Err(e),
            Ok(opt) => match opt {
                Option::None => Ok((Seq::empty(), 1)),
                Option::Some(vt) => match spec_read_str(s.skip(1)) {
                    Err(e) => Err(e),
                    Ok(p) => match spec_read_flat(s.skip(1 + p.1 as int)) {
                        Err(e) => Err(e),
                        Ok(p2) => Ok(
                            (
                                seq![
                                    FieldView {
                                        key: p.0,
                                        var_type: vt,
                                        children: Option::None,
                                    },
                                ] + p2.0,
                                1 + p.1 + p2.1,
                            ),
                        ),
                    },
                },
            },
        }
    }
}

/// The flat pass consumes at least the terminator and at most the input.
pub proof fn lemma_read_flat_len(s: Seq<u8>)
    ensures
        spec_read_flat(s) matches Ok(p) ==> 1 <= p.1 && p.1 <= s.len(),
    decreases s.len(),
{
    if s.len() > 0 {
        match spec_var_type_from(s[0]) {
            Err(_) => {},
            Ok(opt) => match opt {
                Option::None => {},
                Option::Some(vt) => match spec_read_str(s.skip(1)) {
                    Err(_) => {},
                    Ok(p) => {
                        lemma_read_flat_len(s.skip(1 + p.1 as int));
                    },
                },
            },
        }
    }
}

/// The second schema pass: every struct-typed entry of `fs`, in order, takes
/// the nested schema read next from `s`.
pub open spec fn spec_attach_children(fs: Seq<FieldView>, s: Seq<u8>) -> Result<
    (Seq<FieldView>, nat),
    LoadError,
>
    decreases s.len(), 2nat, fs.len(),
{
    if fs.len() == 0 {
        Ok((Seq::empty(), 0))
    } else {
        let f = fs.first();
        if f.var_type.spec_data_type() == DataType::Struct {
            match spec_read_table_header(s) {
                Err(e) => Err(e),
                // A successful nested read always lands in these bounds (the
                // length lemma below shows it); the test keeps this mutual
                // recursion visibly well-founded.
                Ok(p) => if p.1 < 1 || p.1 > s.len() {
                    Err(LoadError::UnexpectedEnd)
                } else {
                    match spec_attach_children(fs.drop_first(), s.skip(p.1 as int)) {
                        Err(e) => Err(e),
                        Ok(p2) => Ok(
                            (
                                seq![
                                    FieldView {
                                        key: f.key,
                                        var_type: f.var_type,
                                        children: Option::Some(p.0),
                                    },
                                ] + p2.0,
                                p.1 + p2.1,
                            ),
                        ),
                    }
                },
            }
        } else {
            match spec_attach_children(fs.drop_first(), s) {
                Err(e) => Err(e),
                Ok(p2) => Ok((seq![f] + p2.0, p2.1)),
            }
        }
    }
}

/// A chunk's schema at the front of `s`: the flat pass, then the nested
/// schemas attached in declaration order. Nested schemas follow the flat
/// list on the wire; they are not interleaved with it.
pub open spec fn spec_read_table_header(s: Seq<u8>) -> Result<(Seq<FieldView>, nat), LoadError>
    decreases s.len(), 1nat, 0nat,
{
    match spec_read_flat(s) {
        Err(e) => Err(e),
        Ok(p) => {
            proof {
                lemma_read_flat_len(s);
            }
            match spec_attach_children(p.0, s.skip(p.1 as int)) {
                Err(e) => Err(e),
                Ok(p2) => Ok((p2.0, p.1 + p2.1)),
            }
        },
    }
}

/// A schema read never consumes more bytes than the input holds, and always
/// consumes at least the flat pass's terminator byte.
pub proof fn lemma_read_table_header_len(s: Seq<u8>)
    ensures
        spec_read_table_header(s) matches Ok(p) ==> 1 <= p.1 && p.1 <= s.len(),
    decreases s.len(), 1nat, 0nat,
{
    lemma_read_flat_len(s);
    match spec_read_flat(s) {
        Err(_) => {},
        Ok(p) => {
            lemma_attach_children_len(p.0, s.skip(p.1 as int));
        },
    }
}

pub proof fn lemma_attach_children_len(fs: Seq<FieldView>, s: Seq<u8>)
    ensures
        spec_attach_children(fs, s) matches Ok(p) ==> p.1 <= s.len(),
    decreases s.len(), 2nat, fs.len(),
{
    if fs.len() > 0 {
        let f = fs.first();
        if f.var_type.spec_data_type() == DataType::Struct {
            lemma_read_table_header_len(s);
            match spec_read_table_header(s) {
                Err(_) => {},
                Ok(p) => {
                    if 1 <= p.1 && p.1 <= s.len() {
                        lemma_attach_children_len(fs.drop_first(), s.skip(p.1 as int));
                    }
                },
            }
        } else {
            lemma_attach_children_len(fs.drop_first(), s);
        }
    }
}

/// The records of a dense table at the front of `s`: length markers and
/// records until a zero marker, which is consumed.
pub open spec fn spec_read_table(fs: Seq<FieldView>, s: Seq<u8>) -> Result<
    (Seq<TableItemView>, nat),
    LoadError,
>
    decreases s.len(),
{
    if !gamma_ok(s) {
        Err(gamma_err(s))
    } else {
        let g = gamma_size(s);
        if gamma_value(s) == 0 {
            Ok((Seq::empty(), g))
        } else {
            match spec_parse_fields(fs, s.skip(g as int)) {
                Err(e) => Err(e),
                Ok(p) => {
                    proof {
                        lemma_parse_fields_len(fs, s.skip(g as int));
                    }
                    match spec_read_table(fs, s.skip(g + p.1 as int)) {
                        Err(e) => Err(e),
                        Ok(p2) => Ok(
                            (seq![TableItemView { fields: p.0 }] + p2.0, g + p.1 + p2.1),
                        ),
                    }
                },
            }
        }
    }
}

/// The records of a sparse table at the front of `s`: as a dense table, but
/// a second gamma integer, the record's explicit index, precedes each
/// record's fields. The index allows gaps; it is read and the record kept in
/// arrival order.
pub open spec fn spec_read_sparse_table(fs: Seq<FieldView>, s: Seq<u8>) -> Result<
    (Seq<TableItemView>, nat),
    LoadError,
>
    decreases s.len(),
{
    if !gamma_ok(s) {
        Err(gamma_err(s))
    } else {
        let g = gamma_size(s);
        if gamma_value(s) == 0 {
            Ok((Seq::empty(), g))
        } else {
            let rest = s.skip(g as int);
            if !gamma_ok(rest) {
                Err(gamma_err(rest))
            } else {
                let g2 = gamma_size(rest);
                match spec_parse_fields(fs, rest.skip(g2 as int)) {
                    Err(e) => Err(e),
                    Ok(p) => {
                        proof {
                            lemma_parse_fields_len(fs, rest.skip(g2 as int));
                        }
                        match spec_read_sparse_table(fs, s.skip(g + g2 + p.1 as int)) {
                            Err(e) => Err(e),
                            Ok(p2) => Ok(
                                (seq![TableItemView { fields: p.0 }] + p2.0, g + g2 + p.1 + p2.1),
                            ),
                        }
                    },
                }
            }
        }
    }
}

/// A schema entry that holds exactly one fixed-width value: a scalar whose
/// kind has a bare encoding and that carries no nested schema.
pub open spec fn scalar_primitive(f: FieldView) -> bool {
    &&& f.var_type matches VarType::Scalar(dt)
    &&& f.var_type.spec_data_type() != DataType::FileEnd
    &&& f.var_type.spec_data_type() != DataType::String
    &&& f.var_type.spec_data_type() != DataType::Struct
    &&& f.children is None
}

pub open spec fn all_scalar_primitive(fs: Seq<FieldView>) -> bool {
    forall|i: int| 0 <= i < fs.len() ==> scalar_primitive(#[trigger] fs[i])
}

/// The wire bytes of one decoded primitive value: its two's-complement
/// unsigned reading, big-endian, at its kind's width.
pub open spec fn spec_encode_content(c: ParsedFieldContentView) -> Seq<u8> {
    match c {
        ParsedFieldContentView::I8(v) => be_bytes(((v as int) % 0x100) as nat, 1),
        ParsedFieldContentView::U8(v) => be_bytes(v as nat, 1),
        ParsedFieldContentView::I16(v) => be_bytes(((v as int) % 0x1_0000) as nat, 2),
        ParsedFieldContentView::U16(v) => be_bytes(v as nat, 2),
        ParsedFieldContentView::I32(v) => be_bytes(((v as int) % 0x1_0000_0000) as nat, 4),
        ParsedFieldContentView::U32(v) => be_bytes(v as nat, 4),
        ParsedFieldContentView::I64(v) => be_bytes(
            ((v as int) % 0x1_0000_0000_0000_0000) as nat,
            8,
        ),
        ParsedFieldContentView::U64(v) => be_bytes(v as nat, 8),
        ParsedFieldContentView::StringId(v) => be_bytes(v as nat, 2),
        _ => Seq::empty(),
    }
}

/// The wire bytes of one decoded record of a scalar-primitive schema: each
/// field's value in schema order.
pub open spec fn spec_encode_record(item: Seq<ParsedFieldView>) -> Seq<u8>
    decreases item.len(),
{
    if item.len() == 0 {
        Seq::empty()
    } else {
        spec_encode_content(item.first().data->Scalar_0) + spec_encode_record(item.drop_first())
    }
}

/// Re-encoding one decoded primitive value reproduces exactly the bytes it
/// was decoded from.
proof fn lemma_value_round_trip(dt: DataType, s: Seq<u8>)
    requires
        dt != DataType::FileEnd,
        dt != DataType::String,
        dt != DataType::Struct,
        spec_read_value(dt, s) is Ok,
    ensures
        spec_encode_content(spec_read_value(dt, s)->Ok_0.0) == s.take(
            spec_read_value(dt, s)->Ok_0.1 as int,
        ),
{
    let p = spec_read_value(dt, s)->Ok_0;
    let w = p.1;
    let t = s.take(w as int);
    let u = be_value(t);
    crate::base_readers::lemma_pow256_values();
    crate::base_readers::lemma_be_value_bound(t);
    crate::base_readers::lemma_be_bytes_of_value(t);
    match dt {
        DataType::I8 => {
            assert(signed_of(u, 1) % 0x100 == u);
        },
        DataType::I16 => {
            assert(signed_of(u, 2) % 0x1_0000 == u);
        },
        DataType::I32 => {
            assert(signed_of(u, 4) % 0x1_0000_0000 == u);
        },
        DataType::I64 => {
            assert(signed_of(u, 8) % 0x1_0000_0000_0000_0000 == u);
        },
        _ => {},
    }
}

/// Decode--encode round trip for records of scalar-primitive schemas: the
/// bytes a record was decoded from are exactly what re-encoding the decoded
/// record yields. Together with the decoder's contracts this says the type
/// table loses nothing for such schemas.
pub proof fn lemma_record_round_trip(fields: Seq<FieldView>, s: Seq<u8>)
    requires
        all_scalar_primitive(fields),
        spec_parse_fields(fields, s) is Ok,
    ensures
        spec_encode_record(spec_parse_fields(fields, s)->Ok_0.0) == s.take(
            spec_parse_fields(fields, s)->Ok_0.1 as int,
        ),
    decreases fields.len(),
{
    let p = spec_parse_fields(fields, s)->Ok_0;
    if fields.len() == 0 {
        assert(spec_encode_record(p.0) =~= s.take(0));
    } else {
        let f = fields.first();
        assert(scalar_primitive(fields[0]));
        let dt = f.var_type->Scalar_0;
        let p1 = spec_parse_field(f, s)->Ok_0;
        let w = spec_read_value(dt, s)->Ok_0.1;
        lemma_value_round_trip(dt, s);
        assert(forall|i: int|
            0 <= i < fields.drop_first().len() ==> scalar_primitive(
                #[trigger] fields.drop_first()[i],
            ));
        lemma_record_round_trip(fields.drop_first(), s.skip(w as int));
        let p2 = spec_parse_fields(fields.drop_first(), s.skip(w as int))->Ok_0;
        lemma_parse_fields_len(fields.drop_first(), s.skip(w as int));
        assert(p.0.drop_first() =~= p2.0);
        assert(p.0.first() == p1.0);
        assert(s.skip(w as int).take(p2.1 as int) =~= s.subrange(w as int, w + p2.1 as int));
        assert(spec_encode_record(p.0) == spec_encode_content(p1.0.data->Scalar_0)
            + spec_encode_record(p2.0));
        assert(s.take(w as int) + s.subrange(w as int, w + p2.1 as int) =~= s.take(
            (w + p2.1) as int,
        ));
    }
}

/// A table read consumes at least its terminator marker and at most the
/// whole input.
pub proof fn lemma_read_table_len(fs: Seq<FieldView>, s: Seq<u8>)
    ensures
        spec_read_table(fs, s) matches Ok(p) ==> 1 <= p.1 && p.1 <= s.len(),
    decreases s.len(),
{
    if gamma_ok(s) && gamma_value(s) != 0 {
        let g = gamma_size(s);
        lemma_parse_fields_len(fs, s.skip(g as int));
        match spec_parse_fields(fs, s.skip(g as int)) {
            Err(_) => {},
            Ok(p) => {
                lemma_read_table_len(fs, s.skip(g + p.1 as int));
            },
        }
    }
}

pub proof fn lemma_read_sparse_table_len(fs: Seq<FieldView>, s: Seq<u8>)
    ensures
        spec_read_sparse_table(fs, s) matches Ok(p) ==> 1 <= p.1 && p.1 <= s.len(),
    decreases s.len(),
{
    if gamma_ok(s) && gamma_value(s) != 0 {
        let g = gamma_size(s);
        let rest = s.skip(g as int);
        if gamma_ok(rest) {
            let g2 = gamma_size(rest);
            lemma_parse_fields_len(fs, rest.skip(g2 as int));
            match spec_parse_fields(fs, rest.skip(g2 as int)) {
                Err(_) => {},
                Ok(p) => {
                    lemma_read_sparse_table_len(fs, s.skip(g + g2 + p.1 as int));
                },
            }
        }
    }
}

/// Decodes one record: each field of `fields` in order.
#[verifier::loop_isolation(false)]
fn parse_record<S: SaveFile>(fields: &Vec<Field>, reader: &mut S) -> (r: Result<
    Vec<ParsedField>,
    LoadError,
>)
    requires
        old(reader).wf(),
    ensures
        final(reader).wf(),
        match r {
            Ok(pfs) => spec_parse_fields(fields_view(fields@), old(reader).bytes()) matches Ok(p)
                && parsed_fields_view(pfs@) == p.0
                && final(reader).bytes() == old(reader).bytes().skip(p.1 as int),
            Err(e) => spec_parse_fields(fields_view(fields@), old(reader).bytes()) matches Err(e2)
                && e == e2 && is_suffix_of(final(reader).bytes(), old(reader).bytes()),
        },
    decreases *fields, 1nat,
{
    let ghost s0 = old(reader).bytes();
    let ghost fv = fields_view(fields@);
    proof {
        lemma_fields_view(fields@);
    }
    let mut out: Vec<ParsedField> = Vec::new();
    let mut i: usize = 0;
    let ghost mut consumed: nat = 0;
    proof {
        assert(fv.skip(0) =~= fv);
        assert(s0.skip(0) =~= s0);
        assert(out@ =~= Seq::<ParsedField>::empty());
        match spec_parse_fields(fv, s0) {
            Ok(p) => {
                assert(parsed_fields_view(out@) + p.0 =~= p.0);
            },
            Err(_) => {},
        }
    }
    while i < fields.len()
        invariant
            i <= fields.len(),
            reader.wf(),
            consumed + reader.bytes().len() == s0.len(),
            reader.bytes() == s0.skip(consumed as int),
            out@.len() == i,
            ({
                let rem = spec_parse_fields(fv.skip(i as int), reader.bytes());
                let total = spec_parse_fields(fv, s0);
                match rem {
                    Ok(p) => total == Ok::<(Seq<ParsedFieldView>, nat), LoadError>((parsed_fields_view(out@) + p.0, consumed + p.1)),
                    Err(e) => total == Err::<(Seq<ParsedFieldView>, nat), LoadError>(e),
                }
            }),
        decreases fields@.len() - i,
    {
        let ghost cur = reader.bytes();
        proof {
            assert(decreases_to!(*fields => fields[i as int]));
            assert(fv.skip(i as int).first() == fv[i as int]);
            assert(fv.skip(i as int).drop_first() =~= fv.skip(i as int + 1));
        }
        let field = &fields[i];
        match field.parse_from(reader) {
            Ok(pf) => {
                proof {
                    let p1 = spec_parse_field(fv[i as int], cur);
                    let n1 = p1->Ok_0.1;
                    lemma_parse_field_len(fv[i as int], cur);
                    assert(cur.skip(n1 as int) =~= s0.skip((consumed + n1) as int));
                    lemma_parsed_fields_view_push(out@, pf);
                    match spec_parse_fields(fv.skip(i as int + 1), cur.skip(n1 as int)) {
                        Ok(p2) => {
                            assert(parsed_fields_view(out@) + (seq![p1->Ok_0.0] + p2.0)
                                =~= parsed_fields_view(out@.push(pf)) + p2.0);
                        },
                        Err(_) => {},
                    }
                    consumed = consumed + n1;
                }
                out.push(pf);
            },
            Err(e) => {
                proof {
                    crate::common::lemma_skip_is_suffix(s0, consumed as int);
                    crate::common::lemma_suffix_trans(reader.bytes(), cur, s0);
                }
                return Err(e);
            },
        }
        i = i + 1;
    }
    proof {
        assert(fv.skip(i as int) =~= Seq::<FieldView>::empty());
        match spec_parse_fields(fv, s0) {
            Ok(p) => {
                assert(parsed_fields_view(out@) + Seq::<ParsedFieldView>::empty()
                    =~= parsed_fields_view(out@));
            },
            Err(_) => {},
        }
    }
    Ok(out)
}

/// Decodes `length` records of the nested schema `children`, each wrapped as
/// a struct value.
#[verifier::loop_isolation(false)]
fn parse_list_records<S: SaveFile>(children: &Vec<Field>, length: u64, reader: &mut S) -> (r:
    Result<Vec<ParsedFieldContent>, LoadError>)
    requires
        old(reader).wf(),
    ensures
        final(reader).wf(),
        match r {
            Ok(items) => spec_parse_records(
                fields_view(children@),
                length as nat,
                old(reader).bytes(),
            ) matches Ok(p) && contents_view(items@) == p.0.map_values(
                |t: TableItemView| ParsedFieldContentView::Struct(t),
            ) && final(reader).bytes() == old(reader).bytes().skip(p.1 as int),
            Err(e) => spec_parse_records(fields_view(children@), length as nat, old(reader).bytes())
                matches Err(e2) && e == e2 && is_suffix_of(
                final(reader).bytes(),
                old(reader).bytes(),
            ),
        },
    decreases *children, 2nat,
{
    let ghost s0 = old(reader).bytes();
    let ghost chv = fields_view(children@);
    let mut items: Vec<ParsedFieldContent> = Vec::new();
    let mut i: u64 = 0;
    let ghost mut consumed: nat = 0;
    let ghost mut done: Seq<TableItemView> = Seq::empty();
    proof {
        assert(s0.skip(0) =~= s0);
        assert(items@ =~= Seq::<ParsedFieldContent>::empty());
        assert(contents_view(items@) =~= done.map_values(
            |t: TableItemView| ParsedFieldContentView::Struct(t),
        ));
        match spec_parse_records(chv, length as nat, s0) {
            Ok(p) => {
                assert(done + p.0 =~= p.0);
            },
            Err(_) => {},
        }
    }
    while i < length
        invariant
            i <= length,
            reader.wf(),
            consumed + reader.bytes().len() == s0.len(),
            reader.bytes() == s0.skip(consumed as int),
            contents_view(items@) == done.map_values(
                |t: TableItemView| ParsedFieldContentView::Struct(t),
            ),
            done.len() == items@.len(),
            ({
                let rem = spec_parse_records(chv, (length - i) as nat, reader.bytes());
                let total = spec_parse_records(chv, length as nat, s0);
                match rem {
                    Ok(p) => total == Ok::<(Seq<TableItemView>, nat), LoadError>((done + p.0, consumed + p.1)),
                    Err(e) => total == Err::<(Seq<TableItemView>, nat), LoadError>(e),
                }
            }),
        decreases length - i,
    {
        let ghost cur = reader.bytes();
        match parse_record(children, reader) {
            Ok(pfs) => {
                proof {
                    let p1 = spec_parse_fields(chv, cur);
                    let m1 = p1->Ok_0.1;
                    let item_v = TableItemView { fields: p1->Ok_0.0 };
                    lemma_parse_fields_len(chv, cur);
                    assert(cur.skip(m1 as int) =~= s0.skip((consumed + m1) as int));
                    lemma_contents_view_push(items@, ParsedFieldContent::Struct(TableItem(pfs)));
                    assert(done.map_values(
                        |t: TableItemView| ParsedFieldContentView::Struct(t),
                    ).push(ParsedFieldContentView::Struct(item_v)) =~= done.push(
                        item_v,
                    ).map_values(|t: TableItemView| ParsedFieldContentView::Struct(t)));
                    match spec_parse_records(chv, (length - i - 1) as nat, cur.skip(m1 as int)) {
                        Ok(p2) => {
                            assert(done + (seq![item_v] + p2.0) =~= done.push(item_v) + p2.0);
                        },
                        Err(_) => {},
                    }
                    consumed = consumed + m1;
                    done = done.push(item_v);
                }
                items.push(ParsedFieldContent::Struct(TableItem(pfs)));
            },
            Err(e) => {
                proof {
                    crate::common::lemma_skip_is_suffix(s0, consumed as int);
                    crate::common::lemma_suffix_trans(reader.bytes(), cur, s0);
                }
                return Err(e);
            },
        }
        i = i + 1;
    }
    proof {
        match spec_parse_records(chv, length as nat, s0) {
            Ok(p) => {
                assert(done + Seq::<TableItemView>::empty() =~= done);
            },
            Err(_) => {},
        }
    }
    Ok(items)
}

/// Decodes `length` scalar values of kind `dt`.
#[verifier::loop_isolation(false)]
fn parse_list_scalars<S: SaveFile>(dt: DataType, length: u64, reader: &mut S) -> (r: Result<
    Vec<ParsedFieldContent>,
    LoadError,
>)
    requires
        old(reader).wf(),
    ensures
        final(reader).wf(),
        match r {
            Ok(items) => spec_parse_scalars(dt, length as nat, old(reader).bytes()) matches Ok(p)
                && contents_view(items@) == p.0 && final(reader).bytes() == old(
                reader,
            ).bytes().skip(p.1 as int),
            Err(e) => spec_parse_scalars(dt, length as nat, old(reader).bytes()) matches Err(e2)
                && e == e2 && is_suffix_of(final(reader).bytes(), old(reader).bytes()),
        },
{
    let ghost s0 = old(reader).bytes();
    let mut items: Vec<ParsedFieldContent> = Vec::new();
    let mut i: u64 = 0;
    let ghost mut consumed: nat = 0;
    let ghost mut done: Seq<ParsedFieldContentView> = Seq::empty();
    proof {
        assert(s0.skip(0) =~= s0);
        assert(items@ =~= Seq::<ParsedFieldContent>::empty());
        assert(contents_view(items@) =~= done);
        match spec_parse_scalars(dt, length as nat, s0) {
            Ok(p) => {
                assert(done + p.0 =~= p.0);
            },
            Err(_) => {},
        }
    }
    while i < length
        invariant
            i <= length,
            reader.wf(),
            consumed + reader.bytes().len() == s0.len(),
            reader.bytes() == s0.skip(consumed as int),
            contents_view(items@) == done,
            ({
                let rem = spec_parse_scalars(dt, (length - i) as nat, reader.bytes());
                let total = spec_parse_scalars(dt, length as nat, s0);
                match rem {
                    Ok(p) => total == Ok::<(Seq<ParsedFieldContentView>, nat), LoadError>((done + p.0, consumed + p.1)),
                    Err(e) => total == Err::<(Seq<ParsedFieldContentView>, nat), LoadError>(e),
                }
            }),
        decreases length - i,
    {
        let ghost cur = reader.bytes();
        match dt.read_from(reader) {
            Ok(c) => {
                proof {
                    let p1 = spec_read_value(dt, cur);
                    let m1 = p1->Ok_0.1;
                    assert(cur.skip(m1 as int) =~= s0.skip((consumed + m1) as int));
                    lemma_contents_view_push(items@, c);
                    match spec_parse_scalars(dt, (length - i - 1) as nat, cur.skip(m1 as int)) {
                        Ok(p2) => {
                            assert(done + (seq![p1->Ok_0.0] + p2.0) =~= done.push(p1->Ok_0.0)
                                + p2.0);
                        },
                        Err(_) => {},
                    }
                    consumed = consumed + m1;
                    done = done.push(p1->Ok_0.0);
                }
                items.push(c);
            },
            Err(e) => {
                proof {
                    crate::common::lemma_skip_is_suffix(s0, consumed as int);
                    crate::common::lemma_suffix_trans(reader.bytes(), cur, s0);
                }
                return Err(e);
            },
        }
        i = i + 1;
    }
    proof {
        match spec_parse_scalars(dt, length as nat, s0) {
            Ok(p) => {
                assert(done + Seq::<ParsedFieldContentView>::empty() =~= done);
            },
            Err(_) => {},
        }
    }
    Ok(items)
}

/// Reads the flat schema pass: one entry byte and key string per field,
/// until the terminator byte.
#[verifier::rlimit(60)]
#[verifier::loop_isolation(false)]
fn read_flat_fields<S: SaveFile>(reader: &mut S) -> (r: Result<Vec<Field>, LoadError>)
    requires
        old(reader).wf(),
    ensures
        final(reader).wf(),
        match r {
            Ok(fields) => spec_read_flat(old(reader).bytes()) matches Ok(p)
                && fields_view(fields@) == p.0 && 1 <= p.1 && p.1 <= old(reader).bytes().len()
                && final(reader).bytes() == old(reader).bytes().skip(p.1 as int)
                && (forall|j: int|
                    0 <= j < fields@.len() ==> (#[trigger] fields@[j]).children is None),
            Err(e) => spec_read_flat(old(reader).bytes()) matches Err(e2) && e == e2
                && is_suffix_of(final(reader).bytes(), old(reader).bytes()),
        },
{
    let ghost s0 = old(reader).bytes();
    let mut fields: Vec<Field> = Vec::new();
    let ghost mut consumed: nat = 0;
    proof {
        lemma_read_flat_len(s0);
        assert(s0.skip(0) =~= s0);
        assert(fields@ =~= Seq::<Field>::empty());
        match spec_read_flat(s0) {
            Ok(p) => {
                assert(fields_view(fields@) + p.0 =~= p.0);
            },
            Err(_) => {},
        }
    }
    let mut terminated = false;
    while !terminated
        invariant
            reader.wf(),
            consumed + reader.bytes().len() == s0.len(),
            reader.bytes() == s0.skip(consumed as int),
            forall|j: int| 0 <= j < fields@.len() ==> (#[trigger] fields@[j]).children is None,
            !terminated ==> ({
                let rem = spec_read_flat(reader.bytes());
                let total = spec_read_flat(s0);
                match rem {
                    Ok(p) => total == Ok::<(Seq<FieldView>, nat), LoadError>((fields_view(fields@) + p.0, consumed + p.1)),
                    Err(e) => total == Err::<(Seq<FieldView>, nat), LoadError>(e),
                }
            }),
            terminated ==> (spec_read_flat(s0) matches Ok(p) && fields_view(fields@) == p.0
                && consumed == p.1),
        decreases reader.bytes().len(),
    {
        let ghost cur = reader.bytes();
        let byte = match reader.read_u8() {
            Ok(b) => b,
            Err(e) => {
                proof {
                    crate::common::lemma_skip_is_suffix(s0, consumed as int);
                }
                return Err(e);
            },
        };
        match VarType::from_byte(byte) {
            Err(e) => {
                proof {
                    crate::common::lemma_skip_is_suffix(s0, (consumed + 1) as int);
                    assert(reader.bytes() =~= s0.skip((consumed + 1) as int));
                }
                return Err(e);
            },
            Ok(None) => {
                proof {
                    match spec_read_flat(s0) {
                        Ok(p) => {
                            assert(fields_view(fields@) + Seq::<FieldView>::empty()
                                =~= fields_view(fields@));
                        },
                        Err(_) => {},
                    }
                    consumed = consumed + 1;
                    assert(reader.bytes() =~= s0.skip(consumed as int));
                }
                terminated = true;
            },
            Ok(Some(var_type)) => {
                let key = match read_str(reader) {
                    Ok(k) => k,
                    Err(e) => {
                        proof {
                            crate::common::lemma_skip_is_suffix(s0, (consumed + 1) as int);
                            assert(cur.skip(1) =~= s0.skip((consumed + 1) as int));
                            crate::common::lemma_suffix_trans(
                                reader.bytes(),
                                cur.skip(1),
                                s0,
                            );
                        }
                        return Err(e);
                    },
                };
                proof {
                    assert(cur.skip(1) =~= s0.skip((consumed + 1) as int));
                }
                let field = Field { key, var_type, children: None };
                proof {
                    let p_str = spec_read_str(cur.skip(1))->Ok_0;
                    assert(reader.bytes() =~= cur.skip(1 + p_str.1 as int));
                    assert(cur.skip(1).skip(p_str.1 as int) =~= s0.skip(
                        (consumed + 1 + p_str.1) as int,
                    ));
                    assert(field_view(field) == (FieldView {
                        key: p_str.0,
                        var_type: var_type,
                        children: Option::None,
                    }));
                    lemma_fields_view_push(fields@, field);
                    match spec_read_flat(cur.skip(1).skip(p_str.1 as int)) {
                        Ok(p2) => {
                            assert(fields_view(fields@) + (seq![field_view(field)] + p2.0)
                                =~= fields_view(fields@.push(field)) + p2.0);
                        },
                        Err(_) => {},
                    }
                    consumed = consumed + 1 + p_str.1;
                }
                fields.push(field);
            },
        }
    }
    Ok(fields)
}

/// Reads a chunk's schema: the flat list of entries up to the terminator,
/// then, in declaration order, one nested schema for every struct-typed
/// entry, read recursively from the bytes that follow.
#[verifier::rlimit(60)]
#[verifier::loop_isolation(false)]
pub fn read_table_header<S: SaveFile>(reader: &mut S) -> (r: Result<Vec<Field>, LoadError>)
    requires
        old(reader).wf(),
    ensures
        final(reader).wf(),
        match r {
            Ok(fields) => spec_read_table_header(old(reader).bytes()) matches Ok(p)
                && fields_view(fields@) == p.0 && p.1 <= old(reader).bytes().len()
                && final(reader).bytes() == old(reader).bytes().skip(p.1 as int),
            Err(e) => spec_read_table_header(old(reader).bytes()) matches Err(e2) && e == e2
                && is_suffix_of(final(reader).bytes(), old(reader).bytes()),
        },
    decreases old(reader).bytes().len(),
{
    let ghost s0 = old(reader).bytes();
    let mut fields = match read_flat_fields(reader) {
        Ok(fs) => fs,
        Err(e) => {
            return Err(e);
        },
    };
    let ghost flat_fv = fields_view(fields@);
    let ghost s1 = reader.bytes();
    let ghost flat_consumed = spec_read_flat(s0)->Ok_0.1;
    let mut out: Vec<Field> = Vec::new();
    let ghost mut consumed2: nat = 0;
    proof {
        assert(s1.skip(0) =~= s1);
        assert(out@ =~= Seq::<Field>::empty());
        match spec_attach_children(flat_fv, s1) {
            Ok(p) => {
                assert(fields_view(out@) + p.0 =~= p.0);
            },
            Err(_) => {},
        }
    }
    while fields.len() > 0
        invariant
            reader.wf(),
            consumed2 + reader.bytes().len() == s1.len(),
            reader.bytes() == s1.skip(consumed2 as int),
            ({
                let rem = spec_attach_children(fields_view(fields@), reader.bytes());
                let total = spec_attach_children(flat_fv, s1);
                match rem {
                    Ok(p) => total == Ok::<(Seq<FieldView>, nat), LoadError>((fields_view(out@) + p.0, consumed2 + p.1)),
                    Err(e) => total == Err::<(Seq<FieldView>, nat), LoadError>(e),
                }
            }),
        decreases fields@.len(),
    {
        let ghost rem_fields = fields@;
        let ghost cur = reader.bytes();
        let f = fields.remove(0);
        proof {
            assert(fields@ =~= rem_fields.drop_first());
            lemma_fields_view(rem_fields);
            assert(fields_view(rem_fields).first() == field_view(f));
            assert(fields_view(rem_fields).drop_first() =~= fields_view(fields@));
        }
        if f.var_type.data_type() == DataType::Struct {
            let children = match read_table_header(reader) {
                Ok(c) => c,
                Err(e) => {
                    proof {
                        crate::common::lemma_skip_is_suffix(s1, consumed2 as int);
                        crate::common::lemma_suffix_trans(reader.bytes(), cur, s1);
                        crate::common::lemma_skip_is_suffix(s0, flat_consumed as int);
                        crate::common::lemma_suffix_trans(reader.bytes(), s1, s0);
                    }
                    return Err(e);
                },
            };
            let nf = Field { key: f.key, var_type: f.var_type, children: Some(children) };
            proof {
                let p_h = spec_read_table_header(cur)->Ok_0;
                lemma_read_table_header_len(cur);
                assert(cur.skip(p_h.1 as int) =~= s1.skip((consumed2 + p_h.1) as int));
                assert(field_view(nf) == (FieldView {
                    key: field_view(f).key,
                    var_type: f.var_type,
                    children: Option::Some(p_h.0),
                }));
                lemma_fields_view_push(out@, nf);
                match spec_attach_children(
                    fields_view(fields@),
                    cur.skip(p_h.1 as int),
                ) {
                    Ok(p2) => {
                        assert(fields_view(out@) + (seq![field_view(nf)] + p2.0)
                            =~= fields_view(out@.push(nf)) + p2.0);
                    },
                    Err(_) => {},
                }
                consumed2 = consumed2 + p_h.1;
            }
            out.push(nf);
        } else {
            proof {
                lemma_fields_view_push(out@, f);
                match spec_attach_children(fields_view(fields@), reader.bytes()) {
                    Ok(p2) => {
                        assert(fields_view(out@) + (seq![field_view(f)] + p2.0)
                            =~= fields_view(out@.push(f)) + p2.0);
                    },
                    Err(_) => {},
                }
            }
            out.push(f);
        }
    }
    proof {
        assert(fields_view(fields@) =~= Seq::<FieldView>::empty());
        match spec_attach_children(flat_fv, s1) {
            Ok(p) => {
                assert(fields_view(out@) + Seq::<FieldView>::empty() =~= fields_view(out@));
            },
            Err(_) => {},
        }
        assert(s1.skip(consumed2 as int) =~= s0.skip((flat_consumed + consumed2) as int));
    }
    Ok(out)
}

/// Reads a dense table: a gamma length marker then one record, repeatedly,
/// until a zero marker, which is consumed. The marker's value beyond the
/// terminator check is not validated against the bytes the schema consumes.
#[verifier::rlimit(60)]
#[verifier::loop_isolation(false)]
pub fn read_table<S: SaveFile>(decoder: &mut S, fields: Vec<Field>) -> (r: Result<
    Vec<TableItem>,
    LoadError,
>)
    requires
        old(decoder).wf(),
    ensures
        final(decoder).wf(),
        match r {
            Ok(items) => spec_read_table(fields_view(fields@), old(decoder).bytes()) matches Ok(p)
                && items_view(items@) == p.0 && final(decoder).bytes() == old(
                decoder,
            ).bytes().skip(p.1 as int),
            Err(e) => spec_read_table(fields_view(fields@), old(decoder).bytes()) matches Err(e2)
                && e == e2 && is_suffix_of(final(decoder).bytes(), old(decoder).bytes()),
        },
{
    let ghost s0 = old(decoder).bytes();
    let ghost fv = fields_view(fields@);
    let mut parsed_items: Vec<TableItem> = Vec::new();
    let ghost mut consumed: nat = 0;
    proof {
        assert(s0.skip(0) =~= s0);
        assert(parsed_items@ =~= Seq::<TableItem>::empty());
        match spec_read_table(fv, s0) {
            Ok(p) => {
                assert(items_view(parsed_items@) + p.0 =~= p.0);
            },
            Err(_) => {},
        }
    }
    let mut terminated = false;
    while !terminated
        invariant
            decoder.wf(),
            consumed + decoder.bytes().len() == s0.len(),
            decoder.bytes() == s0.skip(consumed as int),
            !terminated ==> ({
                let rem = spec_read_table(fv, decoder.bytes());
                let total = spec_read_table(fv, s0);
                match rem {
                    Ok(p) => total == Ok::<(Seq<TableItemView>, nat), LoadError>((items_view(parsed_items@) + p.0, consumed + p.1)),
                    Err(e) => total == Err::<(Seq<TableItemView>, nat), LoadError>(e),
                }
            }),
            terminated ==> (spec_read_table(fv, s0) matches Ok(p) && items_view(parsed_items@)
                == p.0 && consumed == p.1),
        decreases decoder.bytes().len(),
    {
        let ghost cur = decoder.bytes();
        let size = match read_gamma(decoder) {
            Ok(v) => v,
            Err(e) => {
                proof {
                    crate::common::lemma_skip_is_suffix(s0, consumed as int);
                    crate::common::lemma_suffix_trans(decoder.bytes(), cur, s0);
                }
                return Err(e);
            },
        };
        let ghost g = gamma_size(cur);
        if size == 0 {
            proof {
                match spec_read_table(fv, s0) {
                    Ok(p) => {
                        assert(items_view(parsed_items@) + Seq::<TableItemView>::empty()
                            =~= items_view(parsed_items@));
                    },
                    Err(_) => {},
                }
                consumed = consumed + g;
                assert(decoder.bytes() =~= s0.skip(consumed as int));
            }
            terminated = true;
            continue;
        }
        let parsed_fields = match parse_record(&fields, decoder) {
            Ok(pfs) => pfs,
            Err(e) => {
                proof {
                    crate::common::lemma_skip_is_suffix(s0, (consumed + g) as int);
                    assert(cur.skip(g as int) =~= s0.skip((consumed + g) as int));
                    crate::common::lemma_suffix_trans(
                        decoder.bytes(),
                        cur.skip(g as int),
                        s0,
                    );
                }
                return Err(e);
            },
        };
        let item = TableItem(parsed_fields);
        proof {
            let p1 = spec_parse_fields(fv, cur.skip(g as int))->Ok_0;
            lemma_parse_fields_len(fv, cur.skip(g as int));
            assert(cur.skip(g as int).skip(p1.1 as int) =~= s0.skip(
                (consumed + g + p1.1) as int,
            ));
            assert(cur.skip((g + p1.1) as int) =~= s0.skip((consumed + g + p1.1) as int));
            lemma_items_view_push(parsed_items@, item);
            match spec_read_table(fv, cur.skip((g + p1.1) as int)) {
                Ok(p2) => {
                    assert(items_view(parsed_items@) + (seq![item_view(item)] + p2.0)
                        =~= items_view(parsed_items@.push(item)) + p2.0);
                },
                Err(_) => {},
            }
            consumed = consumed + g + p1.1;
        }
        parsed_items.push(item);
    }
    Ok(parsed_items)
}

/// Reads a sparse table: as `read_table`, but each non-zero length marker is
/// followed by the record's explicit gamma-encoded index, allowing gaps;
/// records are returned in arrival order.
#[verifier::rlimit(100)]
#[verifier::loop_isolation(false)]
pub fn read_sparse_table<S: SaveFile>(decoder: &mut S, fields: Vec<Field>) -> (r: Result<
    Vec<TableItem>,
    LoadError,
>)
    requires
        old(decoder).wf(),
    ensures
        final(decoder).wf(),
        match r {
            Ok(items) => spec_read_sparse_table(fields_view(fields@), old(decoder).bytes())
                matches Ok(p) && items_view(items@) == p.0 && final(decoder).bytes() == old(
                decoder,
            ).bytes().skip(p.1 as int),
            Err(e) => spec_read_sparse_table(fields_view(fields@), old(decoder).bytes())
                matches Err(e2) && e == e2 && is_suffix_of(
                final(decoder).bytes(),
                old(decoder).bytes(),
            ),
        },
{
    let ghost s0 = old(decoder).bytes();
    let ghost fv = fields_view(fields@);
    let mut parsed_items: Vec<TableItem> = Vec::new();
    let ghost mut consumed: nat = 0;
    proof {
        assert(s0.skip(0) =~= s0);
        assert(parsed_items@ =~= Seq::<TableItem>::empty());
        match spec_read_sparse_table(fv, s0) {
            Ok(p) => {
                assert(items_view(parsed_items@) + p.0 =~= p.0);
            },
            Err(_) => {},
        }
    }
    let mut terminated = false;
    while !terminated
        invariant
            decoder.wf(),
            consumed + decoder.bytes().len() == s0.len(),
            decoder.bytes() == s0.skip(consumed as int),
            !terminated ==> ({
                let rem = spec_read_sparse_table(fv, decoder.bytes());
                let total = spec_read_sparse_table(fv, s0);
                match rem {
                    Ok(p) => total == Ok::<(Seq<TableItemView>, nat), LoadError>((items_view(parsed_items@) + p.0, consumed + p.1)),
                    Err(e) => total == Err::<(Seq<TableItemView>, nat), LoadError>(e),
                }
            }),
            terminated ==> (spec_read_sparse_table(fv, s0) matches Ok(p)
                && items_view(parsed_items@) == p.0 && consumed == p.1),
        decreases decoder.bytes().len(),
    {
        let ghost cur = decoder.bytes();
        let size = match read_gamma(decoder) {
            Ok(v) => v,
            Err(e) => {
                proof {
                    crate::common::lemma_skip_is_suffix(s0, consumed as int);
                    crate::common::lemma_suffix_trans(decoder.bytes(), cur, s0);
                }
                return Err(e);
            },
        };
        let ghost g = gamma_size(cur);
        if size == 0 {
            proof {
                match spec_read_sparse_table(fv, s0) {
                    Ok(p) => {
                        assert(items_view(parsed_items@) + Seq::<TableItemView>::empty()
                            =~= items_view(parsed_items@));
                    },
                    Err(_) => {},
                }
                consumed = consumed + g;
                assert(decoder.bytes() =~= s0.skip(consumed as int));
            }
            terminated = true;
            continue;
        }
        let ghost rest = cur.skip(g as int);
        let _index = match read_gamma(decoder) {
            Ok(v) => v,
            Err(e) => {
                proof {
                    crate::common::lemma_skip_is_suffix(s0, (consumed + g) as int);
                    assert(rest =~= s0.skip((consumed + g) as int));
                    crate::common::lemma_suffix_trans(decoder.bytes(), rest, s0);
                }
                return Err(e);
            },
        };
        let ghost g2 = gamma_size(rest);
        let parsed_fields = match parse_record(&fields, decoder) {
            Ok(pfs) => pfs,
            Err(e) => {
                proof {
                    crate::common::lemma_skip_is_suffix(s0, (consumed + g + g2) as int);
                    assert(rest.skip(g2 as int) =~= s0.skip((consumed + g + g2) as int));
                    crate::common::lemma_suffix_trans(
                        decoder.bytes(),
                        rest.skip(g2 as int),
                        s0,
                    );
                }
                return Err(e);
            },
        };
        let item = TableItem(parsed_fields);
        proof {
            let p1 = spec_parse_fields(fv, rest.skip(g2 as int))->Ok_0;
            lemma_parse_fields_len(fv, rest.skip(g2 as int));
            assert(rest.skip(g2 as int) =~= s0.skip((consumed + g + g2) as int));
            assert(rest.skip(g2 as int).skip(p1.1 as int) =~= s0.skip(
                (consumed + g + g2 + p1.1) as int,
            ));
            assert(cur.skip((g + g2 + p1.1) as int) =~= s0.skip(
                (consumed + g + g2 + p1.1) as int,
            ));
            lemma_items_view_push(parsed_items@, item);
            match spec_read_sparse_table(fv, cur.skip((g + g2 + p1.1) as int)) {
                Ok(p2) => {
                    assert(items_view(parsed_items@) + (seq![item_view(item)] + p2.0)
                        =~= items_view(parsed_items@.push(item)) + p2.0);
                },
                Err(_) => {},
            }
            consumed = consumed + g + g2 + p1.1;
        }
        parsed_items.push(item);
    }
    Ok(parsed_items)
}

impl Field {
    /// The synthetic scalar byte field appended for the one well-known chunk
    /// whose records carry a flag not described by their on-wire schema.
    pub fn new_custom_data() -> (r: Field)
        ensures
            field_view(r) == (FieldView {
                key: "hasCustomData"@,
                var_type: VarType::Scalar(DataType::U8),
                children: Option::None,
            }),
    {
        Field {
            key: String::from_str("hasCustomData"),
            var_type: VarType::Scalar(DataType::U8),
            children: None,
        }
    }

    /// Decodes this field's data from the source, recursing into nested
    /// schemas for struct fields.
    pub fn parse_from<S: SaveFile>(&self, reader: &mut S) -> (r: Result<ParsedField, LoadError>)
        requires
            old(reader).wf(),
        ensures
            final(reader).wf(),
            match r {
                Ok(pf) => spec_parse_field(field_view(*self), old(reader).bytes()) matches Ok(p)
                    && parsed_field_view(pf) == p.0
                    && final(reader).bytes() == old(reader).bytes().skip(p.1 as int),
                Err(e) => spec_parse_field(field_view(*self), old(reader).bytes()) matches Err(e2)
                    && e == e2 && is_suffix_of(final(reader).bytes(), old(reader).bytes()),
            },
        decreases *self, 0nat,
    {
        let ghost s0 = old(reader).bytes();
        let ghost fv = field_view(*self);
        match self.var_type {
            VarType::List(data_type) => {
                let length = match read_gamma(reader) {
                    Ok(v) => v,
                    Err(e) => {
                        return Err(e);
                    },
                };
                let ghost g = gamma_size(s0);
                let ghost rest = s0.skip(g as int);
                match &self.children {
                    Some(children) => {
                        proof {
                            assert(decreases_to!(*self => *children));
                        }
                        let items = match parse_list_records(children, length, reader) {
                            Ok(items) => items,
                            Err(e) => {
                                proof {
                                    crate::common::lemma_skip_is_suffix(s0, g as int);
                                    crate::common::lemma_suffix_trans(reader.bytes(), rest, s0);
                                }
                                return Err(e);
                            },
                        };
                        proof {
                            let p = spec_parse_records(
                                fields_view(children@),
                                length as nat,
                                rest,
                            )->Ok_0;
                            lemma_parse_records_len(fields_view(children@), length as nat, rest);
                            assert(rest.skip(p.1 as int) =~= s0.skip((g + p.1) as int));
                        }
                        Ok(ParsedField { key: self.key.clone(), data: ParsedFieldData::List(items) })
                    },
                    None => {
                        if data_type == DataType::String {
                            if length == 0 {
                                let items: Vec<ParsedFieldContent> = Vec::new();
                                proof {
                                    assert(items@ =~= Seq::<ParsedFieldContent>::empty());
                                    assert(contents_view(items@) =~= Seq::<
                                        ParsedFieldContentView,
                                    >::empty());
                                }
                                Ok(ParsedField {
                                    key: self.key.clone(),
                                    data: ParsedFieldData::List(items),
                                })
                            } else {
                                let text = match read_str_raw(reader, length) {
                                    Ok(v) => v,
                                    Err(e) => {
                                        proof {
                                            crate::common::lemma_skip_is_suffix(s0, g as int);
                                            if rest.len() >= length {
                                                assert(rest.skip(length as int) =~= s0.skip(
                                                    (g + length) as int,
                                                ));
                                                crate::common::lemma_skip_is_suffix(
                                                    s0,
                                                    (g + length) as int,
                                                );
                                            }
                                        }
                                        return Err(e);
                                    },
                                };
                                let mut items: Vec<ParsedFieldContent> = Vec::new();
                                items.push(ParsedFieldContent::String(text));
                                proof {
                                    lemma_contents_view(items@);
                                    assert(contents_view(items@) =~= seq![
                                        content_view(items@[0]),
                                    ]);
                                    assert(rest.skip(length as int) =~= s0.skip(
                                        (g + length) as int,
                                    ));
                                }
                                Ok(ParsedField {
                                    key: self.key.clone(),
                                    data: ParsedFieldData::List(items),
                                })
                            }
                        } else {
                            let items = match parse_list_scalars(data_type, length, reader) {
                                Ok(items) => items,
                                Err(e) => {
                                    proof {
                                        crate::common::lemma_skip_is_suffix(s0, g as int);
                                        crate::common::lemma_suffix_trans(reader.bytes(), rest, s0);
                                    }
                                    return Err(e);
                                },
                            };
                            proof {
                                let p = spec_parse_scalars(data_type, length as nat, rest)->Ok_0;
                                lemma_parse_scalars_len(data_type, length as nat, rest);
                                assert(rest.skip(p.1 as int) =~= s0.skip((g + p.1) as int));
                            }
                            Ok(ParsedField {
                                key: self.key.clone(),
                                data: ParsedFieldData::List(items),
                            })
                        }
                    },
                }
            },
            VarType::Scalar(data_type) => {
                match &self.children {
                    Some(children) => {
                        proof {
                            assert(decreases_to!(*self => *children));
                        }
                        match parse_record(children, reader) {
                            Ok(pfs) => Ok(ParsedField {
                                key: self.key.clone(),
                                data: ParsedFieldData::Scalar(
                                    ParsedFieldContent::Struct(TableItem(pfs)),
                                ),
                            }),
                            Err(e) => Err(e),
                        }
                    },
                    None => {
                        match data_type.read_from(reader) {
                            Ok(c) => Ok(ParsedField {
                                key: self.key.clone(),
                                data: ParsedFieldData::Scalar(c),
                            }),
                            Err(e) => Err(e),
                        }
                    },
                }
            },
        }
    }
}

} // verus!
