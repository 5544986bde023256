//! The image vault: content-addressed storage of binary clipboard payloads.
//!
//! A payload is decoded and re-encoded to canonical PNG, so the same logical
//! image gets a stable on-disk identity whatever byte-level representation
//! the clipboard exposed. The library prepares the canonical bytes and the
//! file name `clip_{fingerprint:016x}_{stamp}.png`; writing and removing the
//! file is the caller's concern, as is the capture stamp.

use crate::json::{all_ascii, hex_digit, hex_digit_exec, lemma_ascii_valid, string_from_utf8};
use vstd::prelude::*;
use vstd::string::StringSliceAdditionalSpecFns;

verus! {

/// The sixteen hex digits of `n`, most significant nibble first, zero-padded.
pub open spec fn hex16_digits(n: u64) -> Seq<u8> {
    Seq::new(16, |i: int| hex_digit(((n >> (((15 - i) * 4) as u64)) & 0xf) as u8))
}

/// `clip_` + sixteen hex digits + `_` + stamp + `.png`.
pub open spec fn vault_file_name_bytes(fingerprint: u64, stamp: Seq<u8>) -> Seq<u8> {
    seq![99u8, 108u8, 105u8, 112u8, 95u8] + hex16_digits(fingerprint) + seq![95u8] + stamp
        + seq![46u8, 112u8, 110u8, 103u8]
}

/// Appends the sixteen zero-padded hex digits of `n`.
fn push_hex16(out: &mut Vec<u8>, n: u64)
    ensures
        final(out)@ == old(out)@ + hex16_digits(n),
{
    let mut i: usize = 0;
    while i < 16
        invariant
            i <= 16,
            out@ == old(out)@ + hex16_digits(n).take(i as int),
        decreases 16 - i,
    {
        let sh: u64 = (15 - (i as u64)) * 4;
        let nib = (n >> sh) & 0xf;
        proof {
            assert((n >> sh) & 0xf < 16) by (bit_vector);
        }
        out.push(hex_digit_exec(nib as u8));
        proof {
            assert(out@ =~= old(out)@ + hex16_digits(n).take(i + 1));
        }
        i = i + 1;
    }
    proof {
        assert(hex16_digits(n).take(16) =~= hex16_digits(n));
    }
}

/// The vault file name for a fingerprint and a capture stamp.
pub fn vault_file_name(fingerprint: u64, stamp: &str) -> (r: String)
    ensures
        vstd::utf8::encode_utf8(r@) == vault_file_name_bytes(fingerprint, stamp.spec_bytes()),
{
    broadcast use vstd::utf8::encode_utf8_valid_utf8;

    let mut out: Vec<u8> = Vec::new();
    out.push(99);
    out.push(108);
    out.push(105);
    out.push(112);
    out.push(95);
    proof {
        assert(out@ =~= seq![99u8, 108u8, 105u8, 112u8, 95u8]);
    }
    push_hex16(&mut out, fingerprint);
    out.push(95);
    let mut stamp_bytes = stamp.as_bytes_vec();
    out.append(&mut stamp_bytes);
    out.push(46);
    out.push(112);
    out.push(110);
    out.push(103);
    proof {
        assert(out@ =~= vault_file_name_bytes(fingerprint, stamp.spec_bytes()));
        lemma_vault_file_name_valid(fingerprint, stamp.spec_bytes());
    }
    match string_from_utf8(out) {
        Some(s) => s,
        None => {
            proof {
                assert(false);
            }
            String::new()
        },
    }
}

/// A vault file name is valid UTF-8 whenever the stamp is (and the stamp,
/// coming from a string, always is).
proof fn lemma_vault_file_name_valid(fingerprint: u64, stamp: Seq<u8>)
    requires
        vstd::utf8::valid_utf8(stamp),
    ensures
        vstd::utf8::valid_utf8(vault_file_name_bytes(fingerprint, stamp)),
{
    let pre = seq![99u8, 108u8, 105u8, 112u8, 95u8];
    let post = seq![46u8, 112u8, 110u8, 103u8];
    let hx = hex16_digits(fingerprint);
    assert forall|i: int| 0 <= i < hx.len() implies #[trigger] hx[i] <= 0x7f by {
        let sh = ((15 - i) * 4) as u64;
        assert((fingerprint >> sh) & 0xf < 16) by (bit_vector);
    }
    assert(all_ascii(hx));
    lemma_ascii_valid(pre);
    lemma_ascii_valid(hx);
    lemma_ascii_valid(seq![95u8]);
    lemma_ascii_valid(post);
    vstd::utf8::valid_utf8_concat(pre, hx);
    vstd::utf8::valid_utf8_concat(pre + hx, seq![95u8]);
    vstd::utf8::valid_utf8_concat(pre + hx + seq![95u8], stamp);
    vstd::utf8::valid_utf8_concat(pre + hx + seq![95u8] + stamp, post);
}

/// Why a binary payload could not be stored.
#[derive(Debug)]
pub enum VaultError {
    /// The bytes are not a decodable image.
    DecodeError,
    /// The canonical file could not be written (reported by the caller that
    /// performs the write).
    IoError,
}

/// What `reencode_png` returns: the canonical PNG re-encoding of the bytes,
/// or nothing where they do not decode as an image. A function of the bytes
/// alone.
pub uninterp spec fn png_reencode(data: Seq<u8>) -> Option<Seq<u8>>;

/// The bytes of an optional buffer.
pub open spec fn opt_bytes(o: Option<Vec<u8>>) -> Option<Seq<u8>> {
    match o {
        Some(v) => Some(v@),
        None => None,
    }
}

/// Relies on image::load_from_memory, DynamicImage::to_rgba8 and
/// ImageBuffer::write_to with PNG format: decoding and re-encoding, both
/// deterministic functions of the input bytes.
#[verifier::external_body]
fn reencode_png(data: &[u8]) -> (r: Option<Vec<u8>>)
    ensures
        opt_bytes(r) == png_reencode(data@),
{
    let img = match image::load_from_memory(data) {
        Ok(i) => i.to_rgba8(),
        Err(_) => return None,
    };
    let mut out = std::io::Cursor::new(Vec::new());
    match img.write_to(&mut out, image::ImageFormat::Png) {
        Ok(()) => Some(out.into_inner()),
        Err(_) => None,
    }
}

/// A binary payload ready to be written into the vault directory.
pub struct PreparedImage {
    /// `clip_{fingerprint:016x}_{stamp}.png`.
    pub file_name: String,
    /// The canonical PNG bytes.
    pub png: Vec<u8>,
}

/// Decodes the payload and re-encodes it to canonical PNG, with the vault
/// file name for this fingerprint and capture stamp. Fails exactly when the
/// bytes are not a decodable image.
pub fn prepare_store(data: &[u8], fingerprint: u64, stamp: &str) -> (r: Result<
    PreparedImage,
    VaultError,
>)
    ensures
        match r {
            Ok(p) => {
                &&& png_reencode(data@) == Some(p.png@)
                &&& vstd::utf8::encode_utf8(p.file_name@) == vault_file_name_bytes(
                    fingerprint,
                    stamp.spec_bytes(),
                )
            },
            Err(e) => png_reencode(data@) is None && e is DecodeError,
        },
{
    match reencode_png(data) {
        Some(png) => Ok(PreparedImage { file_name: vault_file_name(fingerprint, stamp), png }),
        None => Err(VaultError::DecodeError),
    }
}

} // verus!
