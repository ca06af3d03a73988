//! The byte form of the sidecar artifacts.
//!
//! An artifact is a frame: a magic word, the number of sections, the
//! sections, each behind its length, and a checksum over everything before
//! it. All numbers are 64-bit, little endian. Opening a frame checks every
//! length and the checksum, so a damaged artifact is refused.

use vstd::prelude::*;
use vstd::bytes::{
    lemma_auto_spec_u64_to_from_le_bytes,
    spec_u64_from_le_bytes,
    spec_u64_to_le_bytes,
    u64_from_le_bytes,
    u64_to_le_bytes,
};
use vstd::slice::slice_subrange;
use crate::bytes::{byte_rows, copy_bytes};
use crate::error::NippyJarError;
use crate::hash::{hash, hash_of};

verus! {

/// The first word of every frame.
pub const MAGIC: u64 = 0x4e49_5050_594a_4152;

/// The seed of the checksum.
pub const CHECKSUM_SEED: u64 = 0x1f83_d9ab_fb41_bd6b;

/// The bytes of a sequence of words.
pub open spec fn words_bytes(words: Seq<u64>) -> Seq<u8> {
    Seq::new(8 * words.len(), |j: int| spec_u64_to_le_bytes(words[j / 8])[j % 8])
}

/// The words that a byte string holds, if its length is a multiple of eight.
pub open spec fn bytes_words(bytes: Seq<u8>) -> Option<Seq<u64>> {
    if bytes.len() % 8 != 0 {
        None
    } else {
        Some(
            Seq::new(
                bytes.len() / 8,
                |i: int| spec_u64_from_le_bytes(bytes.subrange(8 * i, 8 * i + 8)),
            ),
        )
    }
}

/// One section behind its length.
pub open spec fn record(section: Seq<u8>) -> Seq<u8> {
    spec_u64_to_le_bytes(section.len() as u64) + section
}

/// The sections, each behind its length, one after the other.
pub open spec fn records(sections: Seq<Seq<u8>>) -> Seq<u8>
    decreases sections.len(),
{
    if sections.len() == 0 {
        Seq::empty()
    } else {
        record(sections[0]) + records(sections.drop_first())
    }
}

/// Everything in a frame that the checksum covers.
pub open spec fn payload(sections: Seq<Seq<u8>>) -> Seq<u8> {
    spec_u64_to_le_bytes(MAGIC) + spec_u64_to_le_bytes(sections.len() as u64) + records(sections)
}

/// The frame of the sections.
pub open spec fn frame(sections: Seq<Seq<u8>>) -> Seq<u8> {
    payload(sections) + spec_u64_to_le_bytes(hash_of(CHECKSUM_SEED, payload(sections)))
}

/// Reads `count` sections from position `pos` on, and returns them with the
/// position behind the last; `None` when the bytes run out.
pub open spec fn parse_at(bytes: Seq<u8>, pos: int, count: nat) -> Option<(Seq<Seq<u8>>, int)>
    decreases count,
{
    if count == 0 {
        Some((Seq::empty(), pos))
    } else if pos + 8 > bytes.len() {
        None
    } else {
        let n = spec_u64_from_le_bytes(bytes.subrange(pos, pos + 8)) as int;
        if pos + 8 + n > bytes.len() {
            None
        } else {
            match parse_at(bytes, pos + 8 + n, (count - 1) as nat) {
                Some((rest, end)) => Some((seq![bytes.subrange(pos + 8, pos + 8 + n)] + rest, end)),
                None => None,
            }
        }
    }
}

/// The sections of a frame, or `None` if the bytes are not a frame: too
/// short, a wrong checksum or magic word, or lengths that do not add up to
/// the length of the frame.
pub open spec fn unframe(bytes: Seq<u8>) -> Option<Seq<Seq<u8>>> {
    if bytes.len() < 24 {
        None
    } else {
        let body = bytes.subrange(0, bytes.len() - 8);
        let sum = spec_u64_from_le_bytes(bytes.subrange(bytes.len() - 8, bytes.len() as int));
        if sum != hash_of(CHECKSUM_SEED, body) {
            None
        } else if spec_u64_from_le_bytes(body.subrange(0, 8)) != MAGIC {
            None
        } else {
            let count = spec_u64_from_le_bytes(body.subrange(8, 16));
            match parse_at(body, 16, count as nat) {
                Some((sections, end)) => if end == body.len() {
                    Some(sections)
                } else {
                    None
                },
                None => None,
            }
        }
    }
}

/// Words survive the way to bytes and back.
pub proof fn lemma_words_roundtrip(words: Seq<u64>)
    ensures
        words_bytes(words).len() == 8 * words.len(),
        bytes_words(words_bytes(words)) == Some(words),
{
    lemma_auto_spec_u64_to_from_le_bytes();
    let bytes = words_bytes(words);
    let back = bytes_words(bytes)->0;
    assert forall|i: int| 0 <= i < words.len() implies back[i] == words[i] by {
        assert(bytes.subrange(8 * i, 8 * i + 8) =~= spec_u64_to_le_bytes(words[i]));
    }
    assert(back =~= words);
}

/// Sections that were written between any two byte strings are read back
/// as they were, and reading stops where they end.
pub proof fn lemma_parse_records(prefix: Seq<u8>, sections: Seq<Seq<u8>>, suffix: Seq<u8>)
    requires
        forall|i: int| 0 <= i < sections.len() ==> (#[trigger] sections[i]).len() <= u64::MAX,
    ensures
        parse_at(prefix + records(sections) + suffix, prefix.len() as int, sections.len()) == Some(
            (sections, (prefix.len() + records(sections).len()) as int),
        ),
    decreases sections.len(),
{
    lemma_auto_spec_u64_to_from_le_bytes();
    let bytes = prefix + records(sections) + suffix;
    let pos = prefix.len() as int;
    if sections.len() > 0 {
        let first = sections[0];
        let rest = sections.drop_first();
        let n = first.len() as int;
        assert(records(sections) == record(first) + records(rest));
        assert(bytes.subrange(pos, pos + 8) =~= spec_u64_to_le_bytes(first.len() as u64));
        assert(bytes.subrange(pos + 8, pos + 8 + n) =~= first);
        assert(bytes =~= (prefix + record(first)) + records(rest) + suffix);
        assert forall|i: int| 0 <= i < rest.len() implies (#[trigger] rest[i]).len()
            <= u64::MAX by {
            assert(rest[i] == sections[i + 1]);
        }
        lemma_parse_records(prefix + record(first), rest, suffix);
        assert(seq![first] + rest =~= sections);
    } else {
        assert(records(sections).len() == 0);
    }
}

/// Round trip of a frame: opening the frame of some sections gives back
/// those sections.
pub proof fn lemma_frame_roundtrip(sections: Seq<Seq<u8>>)
    requires
        sections.len() <= u64::MAX,
        forall|i: int| 0 <= i < sections.len() ==> (#[trigger] sections[i]).len() <= u64::MAX,
    ensures
        unframe(frame(sections)) == Some(sections),
{
    lemma_auto_spec_u64_to_from_le_bytes();
    let body = payload(sections);
    let bytes = frame(sections);
    let head = spec_u64_to_le_bytes(MAGIC) + spec_u64_to_le_bytes(sections.len() as u64);
    assert(bytes.subrange(0, bytes.len() - 8) =~= body);
    assert(bytes.subrange(bytes.len() - 8, bytes.len() as int) =~= spec_u64_to_le_bytes(
        hash_of(CHECKSUM_SEED, body),
    ));
    assert(body.subrange(0, 8) =~= spec_u64_to_le_bytes(MAGIC));
    assert(body.subrange(8, 16) =~= spec_u64_to_le_bytes(sections.len() as u64));
    lemma_parse_records(head, sections, Seq::empty());
    assert(head + records(sections) + Seq::<u8>::empty() =~= body);
}

/// Appends the bytes of `src` to `out`.
fn append(out: &mut Vec<u8>, src: &[u8])
    ensures
        final(out)@ == old(out)@ + src@,
{
    out.extend_from_slice(src);
    proof {
        assert(out@ =~= old(out)@ + src@);
    }
}

/// The bytes of a sequence of words.
pub fn encode_words(words: &Vec<u64>) -> (out: Vec<u8>)
    ensures
        out@ == words_bytes(words@),
{
    let mut out: Vec<u8> = Vec::new();
    let mut i: usize = 0;
    while i < words.len()
        invariant
            i <= words@.len(),
            out@.len() == 8 * i,
            forall|j: int|
                0 <= j < 8 * i ==> #[trigger] out@[j] == spec_u64_to_le_bytes(words@[j / 8])[j % 8],
        decreases words@.len() - i,
    {
        let w = u64_to_le_bytes(words[i]);
        append(&mut out, w.as_slice());
        i += 1;
    }
    proof {
        assert(out@ =~= words_bytes(words@));
    }
    out
}

/// The words that a byte string holds, if its length is a multiple of eight.
pub fn decode_words(bytes: &[u8]) -> (r: Option<Vec<u64>>)
    ensures
        match r {
            Some(words) => bytes_words(bytes@) == Some(words@),
            None => bytes_words(bytes@) is None,
        },
{
    let n: usize = bytes.len();
    if n % 8 != 0 {
        return None;
    }
    let count: usize = n / 8;
    let mut words: Vec<u64> = Vec::new();
    let mut i: usize = 0;
    while i < count
        invariant
            i <= count,
            n == bytes@.len(),
            count == n / 8,
            n % 8 == 0,
            words@.len() == i,
            forall|j: int|
                0 <= j < i ==> #[trigger] words@[j] == spec_u64_from_le_bytes(
                    bytes@.subrange(8 * j, 8 * j + 8),
                ),
        decreases count - i,
    {
        let w = u64_from_le_bytes(slice_subrange(bytes, 8 * i, 8 * i + 8));
        words.push(w);
        i += 1;
    }
    proof {
        assert(words@ =~= bytes_words(bytes@)->0);
    }
    Some(words)
}

/// Frames the sections.
pub fn seal(sections: &Vec<Vec<u8>>) -> (out: Vec<u8>)
    ensures
        out@ == frame(byte_rows(sections@)),
        unframe(out@) == Some(byte_rows(sections@)),
{
    let ghost ss = byte_rows(sections@);
    let mut out: Vec<u8> = u64_to_le_bytes(MAGIC);
    let count = u64_to_le_bytes(sections.len() as u64);
    append(&mut out, count.as_slice());
    let mut i: usize = 0;
    proof {
        assert(ss.skip(0) =~= ss);
    }
    while i < sections.len()
        invariant
            i <= sections@.len(),
            ss == byte_rows(sections@),
            out@ + records(ss.skip(i as int)) == payload(ss),
        decreases sections@.len() - i,
    {
        let section = &sections[i];
        let len = u64_to_le_bytes(section.len() as u64);
        let ghost before = out@;
        append(&mut out, len.as_slice());
        append(&mut out, section.as_slice());
        proof {
            let tail = ss.skip(i as int);
            assert(tail[0] == section@);
            assert(tail.drop_first() =~= ss.skip(i + 1));
            assert(records(tail) == record(section@) + records(ss.skip(i + 1)));
            assert(out@ + records(ss.skip(i + 1)) =~= before + records(tail));
        }
        i += 1;
    }
    proof {
        assert(records(ss.skip(i as int)) =~= Seq::<u8>::empty());
        assert(out@ =~= payload(ss));
    }
    let sum = u64_to_le_bytes(hash(CHECKSUM_SEED, out.as_slice()));
    append(&mut out, sum.as_slice());
    proof {
        assert forall|k: int| 0 <= k < ss.len() implies (#[trigger] ss[k]).len() <= u64::MAX by {
            assert(ss[k].len() == sections@[k].len());
        }
        lemma_frame_roundtrip(ss);
    }
    out
}

/// Opens a frame and returns its sections, or `Corruption` if the bytes
/// are not a frame.
pub fn unseal(bytes: &[u8]) -> (r: Result<Vec<Vec<u8>>, NippyJarError>)
    ensures
        match unframe(bytes@) {
            Some(sections) => r matches Ok(v) && byte_rows(v@) == sections,
            None => r matches Err(e) && e == NippyJarError::Corruption,
        },
{
    let total: usize = bytes.len();
    if total < 24 {
        return Err(NippyJarError::Corruption);
    }
    let body = slice_subrange(bytes, 0, total - 8);
    let sum = u64_from_le_bytes(slice_subrange(bytes, total - 8, total));
    if sum != hash(CHECKSUM_SEED, body) {
        return Err(NippyJarError::Corruption);
    }
    if u64_from_le_bytes(slice_subrange(body, 0, 8)) != MAGIC {
        return Err(NippyJarError::Corruption);
    }
    let count: u64 = u64_from_le_bytes(slice_subrange(body, 8, 16));
    let end: usize = total - 8;
    let mut sections: Vec<Vec<u8>> = Vec::new();
    let mut pos: usize = 16;
    let mut left: u64 = count;
    let ghost goal = parse_at(body@, 16, count as nat);
    proof {
        if goal is Some {
            let (all, stop) = goal->0;
            assert(Seq::<Seq<u8>>::empty() + all =~= all);
        }
    }
    while left > 0
        invariant
            16 <= pos <= end,
            end == body@.len(),
            unframe(bytes@) == match goal {
                Some((all, stop)) => if stop == body@.len() {
                    Some(all)
                } else {
                    None
                },
                None => None,
            },
            goal == match parse_at(body@, pos as int, left as nat) {
                Some((rest, stop)) => Some((byte_rows(sections@) + rest, stop)),
                None => None,
            },
        decreases left,
    {
        if end - pos < 8 {
            return Err(NippyJarError::Corruption);
        }
        let n: u64 = u64_from_le_bytes(slice_subrange(body, pos, pos + 8));
        if n > (end - pos - 8) as u64 {
            return Err(NippyJarError::Corruption);
        }
        let start: usize = pos + 8;
        let stop: usize = start + n as usize;
        let section = copy_bytes(slice_subrange(body, start, stop));
        proof {
            let next = parse_at(body@, stop as int, (left - 1) as nat);
            if next is Some {
                let (rest, last) = next->0;
                assert(byte_rows(sections@.push(section)) + rest =~= byte_rows(sections@) + (
                seq![section@] + rest));
            }
        }
        sections.push(section);
        pos = stop;
        left -= 1;
    }
    if pos != end {
        return Err(NippyJarError::Corruption);
    }
    proof {
        assert(byte_rows(sections@) + Seq::<Seq<u8>>::empty() =~= byte_rows(sections@));
    }
    Ok(sections)
}

} // verus!
