use vstd::prelude::*;
use vstd::utf8::*;
use crate::decimal::parse_u64_spec;
use crate::key_order::{compare_bytes, lemma_lex_flip, KeyOrder};
use crate::wal::errors::WalError;
use crate::wal::wal_files::{parse_file_number, short_read, strip_wal_suffixes};
use crate::wal::wal_header::{trim_zeros, HEADER_SIZE, WalHeader};
use crate::wal::wal_position::WalPosition;
use crate::key_order::{lemma_lex_refl, lemma_lex_trans};
use crate::wal::wal_reader::{file_opens, file_start, name_le};
use crate::text::utf8_lossy_chars;

verus! {

/// The index of the name that no other comes after (the last of them, where several are
/// equal): the last name once the names are sorted with `str`'s order.
pub fn last_by_name(names: &Vec<String>) -> (r: Option<usize>)
    ensures
        names@.len() == 0 <==> r is None,
        r matches Some(i) ==> i < names@.len() && (forall|j: int|
            0 <= j < names@.len() ==> name_le(#[trigger] names@[j]@, names@[i as int]@)) && (forall|j: int|
            i < j < names@.len() ==> !name_le(names@[i as int]@, #[trigger] names@[j]@)),
{
    if names.len() == 0 {
        return None;
    }
    let mut best: usize = 0;
    let mut i: usize = 1;
    proof {
        lemma_lex_refl(encode_utf8(names@[0]@));
    }
    while i < names.len()
        invariant
            1 <= i <= names@.len(),
            best < i,
            forall|j: int| 0 <= j < i ==> name_le(#[trigger] names@[j]@, names@[best as int]@),
            forall|j: int| best < j < i ==> !name_le(names@[best as int]@, #[trigger] names@[j]@),
        decreases names@.len() - i,
    {
        let ord = compare_bytes(names[best].as_str().as_bytes(), names[i].as_str().as_bytes());
        let ghost b = encode_utf8(names@[best as int]@);
        let ghost c = encode_utf8(names@[i as int]@);
        if ord != KeyOrder::Greater {
            proof {
                assert forall|j: int| 0 <= j < i + 1 implies name_le(#[trigger] names@[j]@, names@[i as int]@) by {
                    if j < i {
                        lemma_lex_trans(encode_utf8(names@[j]@), b, c);
                    } else {
                        lemma_lex_refl(c);
                    }
                }
            }
            best = i;
        } else {
            proof {
                lemma_lex_flip(c, b);
            }
        }
        i = i + 1;
    }
    Some(best)
}

/// Where a log writer resumes in its last file, `file_name` holding `bytes`: that file's
/// number, its end, and the first sequence of its header as the next sequence. A name that
/// is not a log file number is refused as `parse_file_number` refuses it; a file shorter
/// than a header is an I/O error of kind `UnexpectedEof`, as reading a whole header from it
/// fails; one with another magic is `InvalidHeader`.
pub fn resume_from(file_name: &str, bytes: &[u8]) -> (r: Result<WalPosition, WalError>)
    ensures
        match parse_u64_spec(strip_wal_suffixes(encode_utf8(file_name@))) {
            None => r matches Err(WalError::InvalidHeader(m)) && m@ == "invalid wal file name: "@
                + file_name@,
            Some(n) => if bytes@.len() < 36 {
                r matches Err(WalError::IOError(_))
            } else if !file_opens(bytes@) {
                r matches Err(WalError::InvalidHeader(m)) && m@ == "invalid magic: "@
                    + utf8_lossy_chars(trim_zeros(bytes@.take(16)))
            } else {
                r matches Ok(p) && p.current_file_number == n && p.start_sequence == file_start(
                    bytes@,
                ) && p.current_sequence == file_start(bytes@) && p.file_offset == bytes@.len()
            },
        },
{
    let number = match parse_file_number(file_name) {
        Ok(n) => n,
        Err(e) => {
            return Err(e);
        },
    };
    if bytes.len() < HEADER_SIZE {
        return Err(short_read());
    }
    match WalHeader::from_bytes(bytes) {
        Ok(h) => Ok(WalPosition::resumed(number, h.get_start_sequence(), bytes.len() as u64)),
        Err(e) => Err(e),
    }
}

} // verus!
