//! The outer file header: the 4-byte compression-format tag, the savegame
//! version, and the decompression step that turns a compressed payload into
//! the chunk stream the rest of the crate decodes.

use vstd::prelude::*;
use vstd::utf8::{decode_utf8, valid_utf8};

use crate::base_readers::be_value;
use crate::common::{is_suffix_of, LoadError};
use crate::save_file::SaveFile;

verus! {

/// The compression format named by the outer file header's 4-byte tag.
#[derive(Debug, PartialEq)]
pub enum SaveFileFormat {
    Lzo,
    Zlib,
    Lzma,
    Unknown(String),
}

/// The mathematical shape of a format tag, with text abstracted to
/// characters.
pub enum SaveFileFormatView {
    Lzo,
    Zlib,
    Lzma,
    Unknown(Seq<char>),
}

pub open spec fn format_view(f: SaveFileFormat) -> SaveFileFormatView {
    match f {
        SaveFileFormat::Lzo => SaveFileFormatView::Lzo,
        SaveFileFormat::Zlib => SaveFileFormatView::Zlib,
        SaveFileFormat::Lzma => SaveFileFormatView::Lzma,
        SaveFileFormat::Unknown(s) => SaveFileFormatView::Unknown(s@),
    }
}

/// Which format a 4-byte tag names. A tag that names no known format but is
/// valid text is kept verbatim; one that is not even text is an encoding
/// error.
pub open spec fn spec_format_from_bytes(b: Seq<u8>) -> Result<SaveFileFormatView, LoadError> {
    if b == seq![0x4fu8, 0x54u8, 0x54u8, 0x44u8] {
        Ok(SaveFileFormatView::Lzo)
    } else if b == seq![0x4fu8, 0x54u8, 0x54u8, 0x5au8] {
        Ok(SaveFileFormatView::Zlib)
    } else if b == seq![0x4fu8, 0x54u8, 0x54u8, 0x58u8] {
        Ok(SaveFileFormatView::Lzma)
    } else if valid_utf8(b) {
        Ok(SaveFileFormatView::Unknown(decode_utf8(b)))
    } else {
        Err(LoadError::InvalidUtf8)
    }
}

/// What an xz stream inflates to, or nothing for a stream that is corrupt,
/// truncated, or not xz at all. Decompression is a function of the compressed
/// bytes alone.
pub uninterp spec fn xz_decoded(compressed: Seq<u8>) -> Option<Seq<u8>>;

/// Relies on xz2::read::XzDecoder, read to its end through
/// std::io::Read::read_to_end: it inflates the xz stream at the front of
/// `data` deterministically, and fails on a stream it cannot inflate.
#[verifier::external_body]
pub(crate) fn xz_decompress(data: &[u8]) -> (r: Result<Vec<u8>, LoadError>)
    ensures
        match r {
            Ok(v) => xz_decoded(data@) == Some(v@),
            Err(e) => xz_decoded(data@) is None && e == LoadError::DecompressionFailed,
        },
{
    let mut decoder = xz2::read::XzDecoder::new(data);
    let mut out: Vec<u8> = Vec::new();
    match std::io::Read::read_to_end(&mut decoder, &mut out) {
        Ok(_) => Ok(out),
        Err(_) => Err(LoadError::DecompressionFailed),
    }
}

impl SaveFileFormat {
    /// Decodes the 4-byte format tag.
    pub fn from_bytes(bytes: &[u8; 4]) -> (r: Result<SaveFileFormat, LoadError>)
        ensures
            match r {
                Ok(f) => spec_format_from_bytes(bytes@) matches Ok(fv) && format_view(f) == fv,
                Err(e) => spec_format_from_bytes(bytes@) matches Err(e2) && e == e2,
            },
    {
        let b0 = bytes[0];
        let b1 = bytes[1];
        let b2 = bytes[2];
        let b3 = bytes[3];
        if b0 == 0x4f && b1 == 0x54 && b2 == 0x54 && b3 == 0x44 {
            proof {
                assert(bytes@ =~= seq![0x4fu8, 0x54u8, 0x54u8, 0x44u8]);
            }
            Ok(SaveFileFormat::Lzo)
        } else if b0 == 0x4f && b1 == 0x54 && b2 == 0x54 && b3 == 0x5a {
            proof {
                assert(bytes@ =~= seq![0x4fu8, 0x54u8, 0x54u8, 0x5au8]);
            }
            Ok(SaveFileFormat::Zlib)
        } else if b0 == 0x4f && b1 == 0x54 && b2 == 0x54 && b3 == 0x58 {
            proof {
                assert(bytes@ =~= seq![0x4fu8, 0x54u8, 0x54u8, 0x58u8]);
            }
            Ok(SaveFileFormat::Lzma)
        } else {
            let mut buf: Vec<u8> = Vec::new();
            buf.push(b0);
            buf.push(b1);
            buf.push(b2);
            buf.push(b3);
            proof {
                assert(buf@ =~= bytes@);
            }
            match crate::base_readers::utf8_to_str(&buf) {
                Some(s) => Ok(SaveFileFormat::Unknown(s.to_owned())),
                None => Err(LoadError::InvalidUtf8),
            }
        }
    }

    /// Reads and decodes the 4-byte format tag.
    pub fn read_from<S: SaveFile>(reader: &mut S) -> (r: Result<SaveFileFormat, LoadError>)
        requires
            old(reader).wf(),
        ensures
            final(reader).wf(),
            match r {
                Ok(f) => spec_format_from_bytes(old(reader).bytes().take(4)) matches Ok(fv)
                    && format_view(f) == fv && old(reader).bytes().len() >= 4
                    && final(reader).bytes() == old(reader).bytes().skip(4),
                Err(e) => (old(reader).bytes().len() < 4 && e == LoadError::UnexpectedEnd
                    && final(reader).bytes() == old(reader).bytes()) || (spec_format_from_bytes(
                    old(reader).bytes().take(4),
                ) matches Err(e2) && e == e2 && old(reader).bytes().len() >= 4
                    && final(reader).bytes() == old(reader).bytes().skip(4)),
            },
    {
        let buf = match reader.read_exact(4) {
            Ok(v) => v,
            Err(e) => {
                return Err(e);
            },
        };
        let tag: [u8; 4] = [buf[0], buf[1], buf[2], buf[3]];
        proof {
            assert(tag@ =~= old(reader).bytes().take(4));
        }
        SaveFileFormat::from_bytes(&tag)
    }

    /// Decompresses one chunk-stream payload in this format. Only the
    /// xz-compressed format can be decoded here; the two legacy formats and
    /// unrecognized tags are reported as unsupported.
    pub fn get_decoder(&self, compressed: &[u8]) -> (r: Result<Vec<u8>, LoadError>)
        ensures
            match r {
                Ok(v) => self is Lzma && xz_decoded(compressed@) == Some(v@),
                Err(e) => (self is Lzma && xz_decoded(compressed@) is None && e
                    == LoadError::DecompressionFailed) || (!(self is Lzma) && e
                    == LoadError::UnsupportedFormat),
            },
    {
        match self {
            SaveFileFormat::Lzma => xz_decompress(compressed),
            _ => Err(LoadError::UnsupportedFormat),
        }
    }
}

/// The outer file header: the compression format tag and the savegame
/// version, with two further header bytes that carry no information.
#[derive(Debug)]
pub struct SaveFileHeader {
    pub format: SaveFileFormat,
    pub version: u16,
}

impl SaveFileHeader {
    /// Reads the 8-byte outer header: a 4-byte format tag, a big-endian
    /// version, and two unused bytes.
    pub fn read_from<S: SaveFile>(reader: &mut S) -> (r: Result<SaveFileHeader, LoadError>)
        requires
            old(reader).wf(),
        ensures
            final(reader).wf(),
            match r {
                Ok(h) => spec_format_from_bytes(old(reader).bytes().take(4)) matches Ok(fv)
                    && format_view(h.format) == fv && old(reader).bytes().len() >= 8
                    && h.version as nat == be_value(old(reader).bytes().subrange(4, 6))
                    && final(reader).bytes() == old(reader).bytes().skip(8),
                Err(e) => (old(reader).bytes().len() < 4 && e == LoadError::UnexpectedEnd
                    && final(reader).bytes() == old(reader).bytes()) || (spec_format_from_bytes(
                    old(reader).bytes().take(4),
                ) matches Err(e2) && e == e2 && old(reader).bytes().len() >= 4
                    && final(reader).bytes() == old(reader).bytes().skip(4)) || (
                spec_format_from_bytes(old(reader).bytes().take(4)) is Ok
                    && old(reader).bytes().len() < 8 && e == LoadError::UnexpectedEnd
                    && is_suffix_of(final(reader).bytes(), old(reader).bytes())),
            },
    {
        let ghost s0 = old(reader).bytes();
        let format = match SaveFileFormat::read_from(reader) {
            Ok(f) => f,
            Err(e) => {
                return Err(e);
            },
        };
        let version_raw = match crate::base_readers::read_be(reader, 2) {
            Ok(v) => v,
            Err(e) => {
                proof {
                    crate::common::lemma_skip_is_suffix(s0, 4);
                }
                return Err(e);
            },
        };
        proof {
            crate::base_readers::lemma_pow256_values();
            assert(s0.skip(4).take(2) =~= s0.subrange(4, 6));
            assert(s0.skip(4).skip(2) =~= s0.skip(6));
        }
        let version = version_raw as u16;
        match reader.read_exact(2) {
            Ok(_) => {},
            Err(e) => {
                proof {
                    crate::common::lemma_skip_is_suffix(s0, 6);
                }
                return Err(e);
            },
        }
        proof {
            assert(s0.skip(6).skip(2) =~= s0.skip(8));
        }
        Ok(SaveFileHeader { format, version })
    }
}

} // verus!
