//! The byte-source capability: sequential reading over bytes held in
//! memory, with one seekable provider over already-decoded bytes and one
//! that decompresses a savegame's payload at construction.

use vstd::prelude::*;

use crate::common::{decimal_digits, u64_to_decimal, LoadError};

verus! {

/// A byte source for the duration of one load.
///
/// A source hands out bytes strictly in order; `bytes()` is the sequence of
/// bytes not yet consumed. Reading never invents or reorders data: every
/// successful read returns a prefix of `bytes()` and leaves the rest.
pub trait SaveFile {
    /// The bytes not yet consumed, in the order they will be read.
    spec fn bytes(&self) -> Seq<u8>;

    /// Internal consistency of the source; all operations preserve it.
    spec fn wf(&self) -> bool;

    /// Reads the next byte.
    fn read_u8(&mut self) -> (r: Result<u8, LoadError>)
        requires
            old(self).wf(),
        ensures
            final(self).wf(),
            match r {
                Ok(b) => old(self).bytes().len() >= 1 && b == old(self).bytes()[0]
                    && final(self).bytes() == old(self).bytes().skip(1),
                Err(e) => old(self).bytes().len() == 0 && e == LoadError::UnexpectedEnd
                    && final(self).bytes() == old(self).bytes(),
            },
    ;

    /// Reads exactly `n` bytes, or fails without consuming anything if fewer
    /// remain.
    fn read_exact(&mut self, n: usize) -> (r: Result<Vec<u8>, LoadError>)
        requires
            old(self).wf(),
        ensures
            final(self).wf(),
            match r {
                Ok(v) => n <= old(self).bytes().len() && v@ == old(self).bytes().take(n as int)
                    && final(self).bytes() == old(self).bytes().skip(n as int),
                Err(e) => old(self).bytes().len() < n && e == LoadError::UnexpectedEnd
                    && final(self).bytes() == old(self).bytes(),
            },
    ;

    /// A source holds its bytes in memory, so there are never more of them
    /// than a machine size can count.
    proof fn bytes_bounded(&self)
        requires
            self.wf(),
        ensures
            self.bytes().len() <= usize::MAX,
    ;

    /// A human-readable description of where the source stands, for logging
    /// only; it never affects what is decoded.
    fn debug_info(&mut self) -> (r: String)
        requires
            old(self).wf(),
        ensures
            final(self).wf(),
            final(self).bytes() == old(self).bytes(),
    ;
}

/// A seekable source over bytes that were already decompressed, with exact
/// position reporting for diagnostics.
pub struct DebugSaveFile {
    data: Vec<u8>,
    pos: usize,
}

impl DebugSaveFile {
    /// How many bytes of the underlying buffer have been consumed.
    pub closed spec fn spec_position(&self) -> nat {
        self.pos as nat
    }

    /// Wraps an already-decoded byte buffer.
    pub fn new_from_decoded(data: Vec<u8>) -> (r: DebugSaveFile)
        ensures
            r.wf(),
            r.bytes() == data@,
            r.spec_position() == 0,
    {
        DebugSaveFile { data, pos: 0 }
    }

    /// Reports the current byte offset, for diagnostics.
    pub fn debug_info(&mut self) -> (r: String)
        requires
            old(self).wf(),
        ensures
            final(self).wf(),
            final(self).bytes() == old(self).bytes(),
            final(self).spec_position() == old(self).spec_position(),
            r@ == "Current position: "@ + decimal_digits(old(self).spec_position()),
    {
        let mut s = String::from_str("Current position: ");
        s.append(u64_to_decimal(self.pos as u64).as_str());
        s
    }
}

impl SaveFile for DebugSaveFile {
    closed spec fn bytes(&self) -> Seq<u8> {
        self.data@.skip(self.pos as int)
    }

    closed spec fn wf(&self) -> bool {
        self.pos <= self.data.len()
    }

    proof fn bytes_bounded(&self) {
        vstd::std_specs::vec::axiom_spec_len(&self.data);
    }

    fn read_u8(&mut self) -> (r: Result<u8, LoadError>) {
        if self.pos < self.data.len() {
            let b = self.data[self.pos];
            self.pos = self.pos + 1;
            proof {
                assert(self.data@.skip(self.pos as int) =~= old(self).bytes().skip(1));
            }
            Ok(b)
        } else {
            Err(LoadError::UnexpectedEnd)
        }
    }

    fn read_exact(&mut self, n: usize) -> (r: Result<Vec<u8>, LoadError>) {
        if n > self.data.len() - self.pos {
            return Err(LoadError::UnexpectedEnd);
        }
        let mut v: Vec<u8> = Vec::new();
        let mut i: usize = 0;
        while i < n
            invariant
                i <= n,
                n <= self.data.len() - self.pos,
                self.data == old(self).data,
                self.pos == old(self).pos,
                v@ =~= self.data@.subrange(self.pos as int, self.pos + i as int),
            decreases n - i,
        {
            v.push(self.data[self.pos + i]);
            i = i + 1;
        }
        self.pos = self.pos + n;
        proof {
            assert(v@ =~= old(self).bytes().take(n as int));
            assert(self.data@.skip(self.pos as int) =~= old(self).bytes().skip(n as int));
        }
        Ok(v)
    }

    fn debug_info(&mut self) -> (r: String) {
        let mut s = String::from_str("Position in file: ");
        s.append(u64_to_decimal(self.pos as u64).as_str());
        s
    }
}

/// A source over a compressed savegame: the outer header is parsed at
/// construction, the payload decompressed behind it, and the detected
/// savegame version exposed.
pub struct CompressedSaveFile {
    pub version: u32,
    data: Vec<u8>,
    pos: usize,
}

impl CompressedSaveFile {
    /// The savegame version parsed from the outer header.
    pub closed spec fn spec_version(&self) -> u32 {
        self.version
    }

    /// Parses the outer header of `raw` — a 4-byte format tag and a 4-byte
    /// version word whose high half is the savegame version — and
    /// decompresses the rest, which the source then reads from.
    pub fn new(raw: &[u8]) -> (r: Result<CompressedSaveFile, LoadError>)
        ensures
            match r {
                Ok(f) => crate::header::spec_format_from_bytes(raw@.take(4)) matches Ok(fv)
                    && fv is Lzma && raw@.len() >= 8 && f.spec_version() as nat == crate::base_readers::be_value(
                    raw@.subrange(4, 6),
                ) && crate::header::xz_decoded(raw@.skip(8)) == Some(f.bytes()) && f.wf(),
                Err(e) => (raw@.len() < 8 && e == LoadError::UnexpectedEnd) || (
                crate::header::spec_format_from_bytes(raw@.take(4)) matches Err(e2) && e == e2
                    && raw@.len() >= 8) || (crate::header::spec_format_from_bytes(raw@.take(4))
                    matches Ok(fv) && !(fv is Lzma) && raw@.len() >= 8 && e
                    == LoadError::UnsupportedFormat) || (crate::header::spec_format_from_bytes(
                    raw@.take(4),
                ) matches Ok(fv) && fv is Lzma && raw@.len() >= 8 && crate::header::xz_decoded(
                    raw@.skip(8),
                ) is None && e == LoadError::DecompressionFailed),
            },
    {
        if raw.len() < 8 {
            return Err(LoadError::UnexpectedEnd);
        }
        let tag: [u8; 4] = [
            *vstd::slice::slice_index_get(raw, 0),
            *vstd::slice::slice_index_get(raw, 1),
            *vstd::slice::slice_index_get(raw, 2),
            *vstd::slice::slice_index_get(raw, 3),
        ];
        proof {
            assert(tag@ =~= raw@.take(4));
        }
        let format = match crate::header::SaveFileFormat::from_bytes(&tag) {
            Ok(f) => f,
            Err(e) => {
                return Err(e);
            },
        };
        match format {
            crate::header::SaveFileFormat::Lzma => {},
            _ => {
                return Err(LoadError::UnsupportedFormat);
            },
        }
        let b4 = *vstd::slice::slice_index_get(raw, 4);
        let b5 = *vstd::slice::slice_index_get(raw, 5);
        let version = (b4 as u32) * 256 + (b5 as u32);
        proof {
            let two = raw@.subrange(4, 6);
            assert(two =~= seq![b4, b5]);
            assert(crate::base_readers::be_value(Seq::<u8>::empty()) == 0);
            assert(crate::base_readers::be_value(seq![b4]) == b4 as nat) by {
                assert(seq![b4].drop_last() =~= Seq::<u8>::empty());
                assert(seq![b4].last() == b4);
            }
            assert(crate::base_readers::be_value(seq![b4, b5]) == b4 as nat * 256 + b5 as nat)
                by {
                assert(seq![b4, b5].drop_last() =~= seq![b4]);
                assert(seq![b4, b5].last() == b5);
            }
        }
        let tail = vstd::slice::slice_subrange(raw, 8, raw.len());
        let data = match crate::header::xz_decompress(tail) {
            Ok(d) => d,
            Err(e) => {
                return Err(e);
            },
        };
        proof {
            assert(data@.skip(0) =~= data@);
        }
        Ok(CompressedSaveFile { version, data, pos: 0 })
    }

    /// A fixed notice: a streaming source has no seekable position to report.
    pub fn debug_info(&mut self) -> (r: String)
        requires
            old(self).wf(),
        ensures
            final(self).wf(),
            final(self).bytes() == old(self).bytes(),
            r@ == "No debug info available"@,
    {
        String::from_str("No debug info available")
    }
}

impl SaveFile for CompressedSaveFile {
    closed spec fn bytes(&self) -> Seq<u8> {
        self.data@.skip(self.pos as int)
    }

    closed spec fn wf(&self) -> bool {
        self.pos <= self.data.len()
    }

    proof fn bytes_bounded(&self) {
        vstd::std_specs::vec::axiom_spec_len(&self.data);
    }

    fn read_u8(&mut self) -> (r: Result<u8, LoadError>) {
        if self.pos < self.data.len() {
            let b = self.data[self.pos];
            self.pos = self.pos + 1;
            proof {
                assert(self.data@.skip(self.pos as int) =~= old(self).bytes().skip(1));
            }
            Ok(b)
        } else {
            Err(LoadError::UnexpectedEnd)
        }
    }

    fn read_exact(&mut self, n: usize) -> (r: Result<Vec<u8>, LoadError>) {
        if n > self.data.len() - self.pos {
            return Err(LoadError::UnexpectedEnd);
        }
        let mut v: Vec<u8> = Vec::new();
        let mut i: usize = 0;
        while i < n
            invariant
                i <= n,
                n <= self.data.len() - self.pos,
                self.data == old(self).data,
                self.pos == old(self).pos,
                v@ =~= self.data@.subrange(self.pos as int, self.pos + i as int),
            decreases n - i,
        {
            v.push(self.data[self.pos + i]);
            i = i + 1;
        }
        self.pos = self.pos + n;
        proof {
            assert(v@ =~= old(self).bytes().take(n as int));
            assert(self.data@.skip(self.pos as int) =~= old(self).bytes().skip(n as int));
        }
        Ok(v)
    }

    fn debug_info(&mut self) -> (r: String) {
        String::from_str("No debug info available")
    }
}

} // verus!
