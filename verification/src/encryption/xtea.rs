//! The XTEA cipher that guards the text files of the engine.
//!
//! An encrypted text file is the sixteen bytes of a fixed header, the CRC-32
//! of the text as a little-endian word, and the text, padded with NUL to a
//! multiple of eight bytes and enciphered in little-endian blocks.
//!
//! The cipher is `extended_tea::XTEA` and the checksum `crc32fast::hash`.
//! What they compute is named, not restated; the contracts of their
//! wrappers are not proved.

use crate::text::{chars_of, string_of, text_from_utf8, trim_end_nul, trim_nul};
use crate::wire::{le_u32, lemma_u32_roundtrip, push_u32, read_u32, u32_bytes};
use byteorder::LittleEndian;
use extended_tea::XTEA;
use vstd::prelude::*;
use vstd::utf8::{decode_utf8, encode_utf8, valid_utf8};

verus! {

/// Errors that can occur during XTEA encryption or decryption.
#[derive(Debug)]
pub enum XteaError {
    /// The deciphered bytes are no UTF-8.
    TextEncodingError,
    /// An error occurred while trying to decrypt the file.
    CipherError(String),
    /// Unexpected input.
    InvalidInput(String),
    /// The checksum could not be written.
    XteaEncodingError(String),
}

/// What XTEA with 32 rounds makes of `input` under `key`, block by block,
/// each block two little-endian words.
pub uninterp spec fn xtea_enciphered(key: Seq<u32>, input: Seq<u8>) -> Seq<u8>;

/// What XTEA with 32 rounds recovers from `input` under `key`.
pub uninterp spec fn xtea_deciphered(key: Seq<u32>, input: Seq<u8>) -> Seq<u8>;

/// The CRC-32 of `data`.
pub uninterp spec fn crc32_of(data: Seq<u8>) -> u32;

/// `XTEA::new` and `XTEA::encipher_u8slice`, which panics unless the input
/// is whole blocks: the cipher text, as long as the input, which
/// deciphering under the same key turns back into the input.
#[verifier::external_body]
fn xtea_encipher(key: &[u32; 4], input: &[u8]) -> (out: Vec<u8>)
    requires
        input@.len() % 8 == 0,
    ensures
        out@ == xtea_enciphered(key@, input@),
        out@.len() == input@.len(),
        xtea_deciphered(key@, out@) == input@,
{
    let mut out = vec![0u8; input.len()];
    XTEA::new(key).encipher_u8slice::<LittleEndian>(input, &mut out);
    out
}

/// `XTEA::new` and `XTEA::decipher_u8slice`, which panics unless the input
/// is whole blocks: the plain text, as long as the input, which
/// enciphering under the same key turns back into the input.
#[verifier::external_body]
fn xtea_decipher(key: &[u32; 4], input: &[u8]) -> (out: Vec<u8>)
    requires
        input@.len() % 8 == 0,
    ensures
        out@ == xtea_deciphered(key@, input@),
        out@.len() == input@.len(),
        xtea_enciphered(key@, out@) == input@,
{
    let mut out = vec![0u8; input.len()];
    XTEA::new(key).decipher_u8slice::<LittleEndian>(input, &mut out);
    out
}

/// `crc32fast::hash`: the CRC-32 of `data`.
#[verifier::external_body]
fn crc32(data: &[u8]) -> (sum: u32)
    ensures
        sum == crc32_of(data@),
{
    crc32fast::hash(data)
}

/// The header of an encrypted text file.
pub open spec fn encrypted_header() -> Seq<u8> {
    seq![
        0x22u8, 0x3d, 0x6f, 0x9a, 0xb3, 0xf8, 0xfe, 0xb6, 0x61, 0xd9, 0xcc, 0x1c, 0x62, 0xde, 0x83,
        0x41,
    ]
}

/// The default key, used for `thumbs.dat` and `packagedefinition.txt`.
pub open spec fn default_key() -> Seq<u32> {
    seq![0x30f95282u32, 0x1f48c419, 0x295f8548, 0x2a78366d]
}

/// Whether `input` starts with the header of an encrypted text file.
pub open spec fn has_header(input: Seq<u8>) -> bool {
    input.len() >= 16 && input.take(16) == encrypted_header()
}

/// `data` with as many NUL bytes behind it as fill its last block of eight.
pub open spec fn padded(data: Seq<u8>) -> Seq<u8> {
    if data.len() % 8 == 0 {
        data
    } else {
        data + Seq::new((8 - data.len() % 8) as nat, |i: int| 0u8)
    }
}

/// `count` NUL characters.
pub open spec fn nuls(count: nat) -> Seq<char> {
    Seq::new(count, |i: int| '\0')
}

/// The number of NUL bytes that fill the last block of `len` bytes.
pub open spec fn padding(len: nat) -> nat {
    if len % 8 == 0 {
        0
    } else {
        (8 - len % 8) as nat
    }
}

/// `text` with as many NUL characters behind it as fill the last block of
/// its UTF-8 bytes: what deciphering gives for a text that was padded
/// before it was enciphered.
pub open spec fn nul_padded(text: Seq<char>) -> Seq<char> {
    text + nuls(padding(encode_utf8(text).len()))
}

/// The UTF-8 bytes of two texts, one behind the other, are those of the
/// texts joined.
pub proof fn lemma_encode_joined(a: Seq<char>, b: Seq<char>)
    ensures
        encode_utf8(a + b) == encode_utf8(a) + encode_utf8(b),
    decreases a.len(),
{
    if a.len() == 0 {
        assert(a + b =~= b);
        assert(encode_utf8(a) + encode_utf8(b) =~= encode_utf8(b));
    } else {
        lemma_encode_joined(a.drop_first(), b);
        assert((a + b).drop_first() =~= a.drop_first() + b);
        assert((a + b)[0] == a[0]);
        assert(encode_utf8(a + b) =~= encode_utf8(a) + encode_utf8(b));
    }
}

/// NUL characters are written as NUL bytes.
pub proof fn lemma_encode_nuls(count: nat)
    ensures
        encode_utf8(nuls(count)) == Seq::new(count, |i: int| 0u8),
    decreases count,
{
    if count == 0 {
        assert(encode_utf8(nuls(0)) =~= Seq::new(0, |i: int| 0u8));
    } else {
        lemma_encode_nuls((count - 1) as nat);
        assert(nuls(count).drop_first() =~= nuls((count - 1) as nat));
        assert(nuls(count)[0] == '\0');
        assert(vstd::utf8::encode_scalar(0u32) =~= seq![0u8]) by {
            assert(vstd::utf8::has_width_1_encoding(0u32));
            assert(0u32 & 0x7F == 0u32) by (bit_vector);
        }
        assert(encode_utf8(nuls(count)) =~= Seq::new(count, |i: int| 0u8));
    }
}

/// The padded bytes of a text are the bytes of the text padded with NUL
/// characters, so they are UTF-8 and decode to that text.
pub proof fn lemma_padded_text(text: Seq<char>)
    ensures
        padded(encode_utf8(text)) == encode_utf8(nul_padded(text)),
        valid_utf8(padded(encode_utf8(text))),
        decode_utf8(padded(encode_utf8(text))) == nul_padded(text),
{
    let data = encode_utf8(text);
    let count = padding(data.len());
    lemma_encode_joined(text, nuls(count));
    lemma_encode_nuls(count);
    if data.len() % 8 == 0 {
        assert(data + Seq::new(0, |i: int| 0u8) =~= data);
    }
    assert(padded(data) =~= encode_utf8(nul_padded(text)));
    vstd::utf8::encode_utf8_valid_utf8(nul_padded(text));
    vstd::utf8::encode_utf8_decode_utf8(nul_padded(text));
}

/// Taking the NUL characters off the end of a text that ends in none, with
/// NUL characters behind it, gives the text.
pub proof fn lemma_trim_nuls(text: Seq<char>, count: nat)
    requires
        text.len() == 0 || text.last() != '\0',
    ensures
        trim_nul(text + nuls(count)) == text,
    decreases count,
{
    if count == 0 {
        assert(text + nuls(0) =~= text);
    } else {
        lemma_trim_nuls(text, (count - 1) as nat);
        let all = text + nuls(count);
        assert(all.last() == '\0');
        assert(all.drop_last() =~= text + nuls((count - 1) as nat));
    }
}

/// What `trim_nul` gives ends in no NUL character.
pub proof fn lemma_trim_nul_ends(text: Seq<char>)
    ensures
        trim_nul(text).len() == 0 || trim_nul(text).last() != '\0',
    decreases text.len(),
{
    if text.len() > 0 && text.last() == '\0' {
        lemma_trim_nul_ends(text.drop_last());
    }
}

/// What decrypting a text file gives.
pub enum Decrypted {
    /// The text.
    Text(Seq<char>),
    /// The input is too short, lacks the header, is no whole number of
    /// blocks, or its checksum is not that of the text.
    Invalid,
    /// The deciphered bytes are no UTF-8.
    NoText,
}

/// The text of the encrypted file `input`: what its bytes from the
/// twentieth on decipher to under the default key, where that is UTF-8 and
/// the word before it is the CRC-32 of the text without the NUL at its end.
pub open spec fn decrypted_file(input: Seq<u8>) -> Decrypted {
    if input.len() < 20 || !has_header(input) || (input.len() - 20) % 8 != 0 {
        Decrypted::Invalid
    } else {
        let plain = xtea_deciphered(default_key(), input.skip(20));
        if !valid_utf8(plain) {
            Decrypted::NoText
        } else if crc32_of(encode_utf8(trim_nul(decode_utf8(plain)))) == le_u32(input, 16) {
            Decrypted::Text(decode_utf8(plain))
        } else {
            Decrypted::Invalid
        }
    }
}

/// The encrypted file of `text`: the header, the CRC-32 of the text without
/// the NUL at its end, and that text, padded and enciphered under the
/// default key.
pub open spec fn encrypted_file(text: Seq<char>) -> Seq<u8> {
    let data = encode_utf8(trim_nul(text));
    encrypted_header() + u32_bytes(crc32_of(data)) + xtea_enciphered(default_key(), padded(data))
}

fn pad_to_block(data: &mut Vec<u8>)
    ensures
        final(data)@ == padded(old(data)@),
        final(data)@.len() % 8 == 0,
{
    let rest = data.len() % 8;
    if rest != 0 {
        let mut i: usize = rest;
        while i < 8
            invariant
                rest <= i <= 8,
                rest == old(data)@.len() % 8,
                rest != 0,
                data@ == old(data)@ + Seq::new((i - rest) as nat, |k: int| 0u8),
            decreases 8 - i,
        {
            data.push(0);
            i += 1;
            assert(data@ =~= old(data)@ + Seq::new((i - rest) as nat, |k: int| 0u8));
        }
    }
}

fn copy_bytes(data: &[u8], from: usize) -> (out: Vec<u8>)
    requires
        from <= data@.len(),
    ensures
        out@ == data@.skip(from as int),
{
    let mut out: Vec<u8> = Vec::new();
    let mut i: usize = from;
    while i < data.len()
        invariant
            from <= i <= data@.len(),
            out@ == data@.subrange(from as int, i as int),
        decreases data@.len() - i,
    {
        out.push(data[i]);
        i += 1;
        assert(data@.subrange(from as int, i as int) =~= data@.subrange(from as int, i - 1).push(
            data@[i - 1],
        ));
    }
    assert(data@.subrange(from as int, data@.len() as int) =~= data@.skip(from as int));
    out
}

/// Implementation of XTEA encryption and decryption methods.
pub struct Xtea;

impl Xtea {
    /// Default XTEA key, used in thumbs.dat and packagedefinition.txt
    pub const DEFAULT_KEY: [u32; 4] = [0x30f95282, 0x1f48c419, 0x295f8548, 0x2a78366d];

    /// LOCR/TEXTLIST XTEA key, used for localization
    pub const LOCR_KEY: [u32; 4] = [0x53527737, 0x7506499E, 0xBD39AEE3, 0xA59E7268];

    /// Checks if a given buffer represents an encrypted text file.
    /// This function will check for the presence of a default header in the text file.
    pub fn is_encrypted_text_file(input_buffer: &[u8]) -> (r: bool)
        ensures
            r == has_header(input_buffer@),
    {
        if input_buffer.len() < 16 {
            return false;
        }
        let header: [u8; 16] = [
            0x22,
            0x3d,
            0x6f,
            0x9a,
            0xb3,
            0xf8,
            0xfe,
            0xb6,
            0x61,
            0xd9,
            0xcc,
            0x1c,
            0x62,
            0xde,
            0x83,
            0x41,
        ];
        assert(header@ =~= encrypted_header());
        let mut i: usize = 0;
        while i < 16
            invariant
                i <= 16,
                input_buffer@.len() >= 16,
                header@ == encrypted_header(),
                forall|j: int| 0 <= j < i ==> input_buffer@[j] == header@[j],
            decreases 16 - i,
        {
            if input_buffer[i] != header[i] {
                assert(input_buffer@.take(16)[i as int] != encrypted_header()[i as int]);
                return false;
            }
            i += 1;
        }
        assert(input_buffer@.take(16) =~= encrypted_header());
        true
    }

    /// Decrypts a text file given its buffer, uses the default xtea key.
    pub fn decrypt_text_file(input_buffer: &[u8]) -> (r: Result<String, XteaError>)
        ensures
            match decrypted_file(input_buffer@) {
                Decrypted::Text(text) => r matches Ok(s) && s@ == text,
                Decrypted::Invalid => r matches Err(XteaError::InvalidInput(_)),
                Decrypted::NoText => r matches Err(XteaError::TextEncodingError),
            },
    {
        if input_buffer.len() < 20 {
            return Err(XteaError::InvalidInput("Input too short".to_string()));
        }
        if !Self::is_encrypted_text_file(input_buffer) {
            return Err(XteaError::InvalidInput("Header mismatch".to_string()));
        }
        let checksum = read_u32(input_buffer, 16).unwrap();
        let input = copy_bytes(input_buffer, 20);
        if input.len() % 8 != 0 {
            return Err(
                XteaError::InvalidInput("Input must be of a length divisible by 8".to_string()),
            );
        }
        let key: [u32; 4] = [0x30f95282, 0x1f48c419, 0x295f8548, 0x2a78366d];
        assert(key@ =~= default_key());
        let plain = xtea_decipher(&key, input.as_slice());
        let output = match text_from_utf8(plain) {
            Some(s) => s,
            None => {
                return Err(XteaError::TextEncodingError);
            },
        };
        let trimmed = string_of(&trim_end_nul(&chars_of(output.as_str())));
        if crc32(trimmed.as_str().as_bytes()) == checksum {
            Ok(output)
        } else {
            Err(XteaError::InvalidInput("CRC checksum mismatched!".to_string()))
        }
    }

    /// Decrypts a string given its buffer and key: the text that the buffer
    /// deciphers to. A buffer that is no whole number of blocks gives
    /// `InvalidInput`, bytes that are no UTF-8 give `TextEncodingError`.
    pub fn decrypt_string(input_buffer: &[u8], key: &[u32; 4]) -> (r: Result<String, XteaError>)
        ensures
            if input_buffer@.len() % 8 != 0 {
                r matches Err(XteaError::InvalidInput(_))
            } else if !valid_utf8(xtea_deciphered(key@, input_buffer@)) {
                r matches Err(XteaError::TextEncodingError)
            } else {
                r matches Ok(s) && s@ == decode_utf8(xtea_deciphered(key@, input_buffer@))
            },
    {
        if input_buffer.len() % 8 != 0 {
            return Err(
                XteaError::InvalidInput("Input must be of a length divisible by 8".to_string()),
            );
        }
        match text_from_utf8(xtea_decipher(key, input_buffer)) {
            Some(s) => Ok(s),
            None => Err(XteaError::TextEncodingError),
        }
    }

    /// Encrypts a text file with the default key: the header, the CRC-32 of
    /// the text without the NUL at its end, and that text, padded with NUL
    /// to whole blocks and enciphered. This never fails, and decrypting the
    /// file gives the text back, with the padding behind it.
    pub fn encrypt_text_file(input_string: String) -> (r: Result<Vec<u8>, XteaError>)
        ensures
            r matches Ok(file) && file@ == encrypted_file(input_string@),
            r matches Ok(file) ==> file@.len() == 20 + padded(
                encode_utf8(trim_nul(input_string@)),
            ).len(),
            r matches Ok(file) ==> decrypted_file(file@) == Decrypted::Text(
                nul_padded(trim_nul(input_string@)),
            ),
    {
        let trimmed = string_of(&trim_end_nul(&chars_of(input_string.as_str())));
        let mut input_buffer = copy_bytes(trimmed.as_str().as_bytes(), 0);
        assert(input_buffer@ =~= encode_utf8(trim_nul(input_string@)));
        let checksum = crc32(input_buffer.as_slice());
        pad_to_block(&mut input_buffer);
        let key: [u32; 4] = [0x30f95282, 0x1f48c419, 0x295f8548, 0x2a78366d];
        assert(key@ =~= default_key());
        let out_buffer = xtea_encipher(&key, input_buffer.as_slice());
        let mut final_buffer: Vec<u8> = Vec::new();
        final_buffer.push(0x22);
        final_buffer.push(0x3d);
        final_buffer.push(0x6f);
        final_buffer.push(0x9a);
        final_buffer.push(0xb3);
        final_buffer.push(0xf8);
        final_buffer.push(0xfe);
        final_buffer.push(0xb6);
        final_buffer.push(0x61);
        final_buffer.push(0xd9);
        final_buffer.push(0xcc);
        final_buffer.push(0x1c);
        final_buffer.push(0x62);
        final_buffer.push(0xde);
        final_buffer.push(0x83);
        final_buffer.push(0x41);
        assert(final_buffer@ =~= encrypted_header());
        push_u32(&mut final_buffer, checksum);
        let mut i: usize = 0;
        let ghost lead = final_buffer@;
        while i < out_buffer.len()
            invariant
                i <= out_buffer@.len(),
                final_buffer@ == lead + out_buffer@.take(i as int),
            decreases out_buffer@.len() - i,
        {
            final_buffer.push(out_buffer[i]);
            i += 1;
            assert(out_buffer@.take(i as int) =~= out_buffer@.take(i - 1).push(out_buffer@[i - 1]));
            assert(final_buffer@ =~= lead + out_buffer@.take(i as int));
        }
        assert(out_buffer@.take(out_buffer@.len() as int) =~= out_buffer@);
        proof {
            let text = trim_nul(input_string@);
            let file = final_buffer@;
            lemma_u32_roundtrip(checksum);
            lemma_padded_text(text);
            lemma_trim_nul_ends(input_string@);
            lemma_trim_nuls(text, padding(encode_utf8(text).len()));
            assert(file.len() == 20 + out_buffer@.len());
            assert(file.take(16) =~= encrypted_header());
            assert(file.skip(20) =~= out_buffer@);
            assert(file.subrange(16, 20) =~= u32_bytes(checksum));
            let word = file.subrange(16, 20);
            assert(word[0] == file[16] && word[1] == file[17] && word[2] == file[18] && word[3]
                == file[19]);
            assert(le_u32(file, 16) == checksum);
        }
        Ok(final_buffer)
    }

    /// Encrypts a string with the given key: its UTF-8 bytes, padded with
    /// NUL to whole blocks and enciphered. This never fails, and
    /// `decrypt_string` under the same key gives the string back, with the
    /// padding behind it.
    pub fn encrypt_string(input_string: String, key: &[u32; 4]) -> (r: Result<Vec<u8>, XteaError>)
        ensures
            r matches Ok(out) && out@ == xtea_enciphered(key@, padded(encode_utf8(input_string@))),
            r matches Ok(out) ==> out@.len() == padded(encode_utf8(input_string@)).len(),
            r matches Ok(out) ==> valid_utf8(xtea_deciphered(key@, out@)) && decode_utf8(
                xtea_deciphered(key@, out@),
            ) == nul_padded(input_string@),
    {
        proof {
            lemma_padded_text(input_string@);
        }
        let mut input_buffer = copy_bytes(input_string.as_str().as_bytes(), 0);
        assert(input_buffer@ =~= encode_utf8(input_string@));
        pad_to_block(&mut input_buffer);
        Ok(xtea_encipher(key, input_buffer.as_slice()))
    }
}

} // verus!
