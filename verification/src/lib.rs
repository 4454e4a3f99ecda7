//! Decoder for the MPKG sequential archive container.
//!
//! An archive is a header, a table of contents and the payloads of its
//! members, one after the other. `unpack::unpack_mpkg` decodes the bytes of
//! an archive into the members that are to be written out. It touches no
//! file: the caller reads the archive and writes the members.
//!
//! - `stream`: a cursor over bytes, little-endian integer reads, and the
//!   copy of a given number of bytes.
//! - `archive`: the layout of header and table of contents, and their
//!   readers.
//! - `unpack`: extraction of the members and decoding of a whole archive.
//! - `layout`: the bytes of an archive that holds given members, and the
//!   proof that decoding gives those members back.
//! - `text`: permissive decoding of tags and names for display.
//! - `error`: the failures.
//!
//! Every function states what it returns over the mathematical model of the
//! format: `archive::parse_toc` for the header and the table of contents,
//! `unpack::unpack` for a whole archive.

pub mod archive;
pub mod error;
pub mod layout;
pub mod stream;
pub mod text;
pub mod unpack;
