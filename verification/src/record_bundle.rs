//! Length-delimited bundles of signed address records.

use crate::codec::signed_encoding;
use crate::keys::key_value;
use crate::signed_address::{
    decoded_record, says_undecodable, SignedAddressRecord, SignedView, MAX_SIGNED_ADDRESS_BYTES,
};
use crate::transport_address::copy_bytes;
use vstd::prelude::*;

verus! {

/// A number below 2^32 as four bytes, high byte first.
pub open spec fn be_bytes(value: nat) -> Seq<u8> {
    seq![
        (value / 0x100_0000) as u8,
        (value / 0x1_0000 % 256) as u8,
        (value / 256 % 256) as u8,
        (value % 256) as u8,
    ]
}

/// Frames one after another, each behind its length.
pub open spec fn framed(frames: Seq<Seq<u8>>) -> Seq<u8>
    decreases frames.len(),
{
    if frames.len() == 0 {
        Seq::empty()
    } else {
        framed(frames.drop_last()) + be_bytes(frames.last().len()) + frames.last()
    }
}

/// The contents of each record.
pub open spec fn signed_views(records: Seq<SignedAddressRecord>) -> Seq<SignedView> {
    records.map(|_i: int, r: SignedAddressRecord| r@)
}

/// Why a bundle is refused.
pub enum BundleFault {
    /// More records than wanted, or a cut length prefix.
    Malformed,
    /// Fewer bytes than the length prefix says.
    Truncated,
    /// Bytes of a record that cannot be decoded.
    Record(Seq<u8>),
}

/// The next frame of a bundle and what follows it.
pub open spec fn next_frame(bytes: Seq<u8>, room: nat) -> Result<(Seq<u8>, Seq<u8>), BundleFault> {
    if room == 0 || bytes.len() < 4 {
        Err(BundleFault::Malformed)
    } else if key_value(bytes.take(4)) > bytes.len() - 4 {
        Err(BundleFault::Truncated)
    } else {
        let length = key_value(bytes.take(4)) as int;
        Ok((bytes.subrange(4, 4 + length), bytes.skip(4 + length)))
    }
}

/// What a bundle of at most so many records decodes to.
pub open spec fn unbundled(bytes: Seq<u8>, room: nat) -> Result<Seq<SignedView>, BundleFault>
    decreases room,
{
    if bytes.len() == 0 {
        Ok(Seq::empty())
    } else {
        match next_frame(bytes, room) {
            Err(fault) => Err(fault),
            Ok((frame, rest)) => match decoded_record(frame) {
                None => Err(BundleFault::Record(frame)),
                Some(record) => if room == 0 {
                    Err(BundleFault::Malformed)
                } else {
                    match unbundled(rest, (room - 1) as nat) {
                        Ok(records) => Ok(seq![record] + records),
                        Err(fault) => Err(fault),
                    }
                },
            },
        }
    }
}

/// Whether an outcome reports what is wrong with a bundle.
pub open spec fn bundle_refused<T>(outcome: Result<T, String>, fault: BundleFault) -> bool {
    outcome matches Err(error) && match fault {
        BundleFault::Malformed => error@ == "invalid signed record bundle"@,
        BundleFault::Truncated => error@ == "truncated signed record"@,
        BundleFault::Record(frame) => says_undecodable(frame, error@),
    }
}

/// Four bytes spell the number that they were made of.
pub proof fn lemma_be_bytes(value: nat)
    requires
        value <= 0xffff_ffff,
    ensures
        key_value(be_bytes(value)) == value,
        be_bytes(value).len() == 4,
{
    reveal_with_fuel(key_value, 5);
    let s = be_bytes(value);
    assert(s.drop_last() =~= seq![s[0], s[1], s[2]]);
    assert(s.drop_last().drop_last() =~= seq![s[0], s[1]]);
    assert(s.drop_last().drop_last().drop_last() =~= seq![s[0]]);
    assert(s.drop_last().drop_last().drop_last().drop_last() =~= Seq::<u8>::empty());
}

proof fn lemma_framed_first(frames: Seq<Seq<u8>>)
    requires
        frames.len() > 0,
    ensures
        framed(frames) == be_bytes(frames[0].len()) + frames[0] + framed(frames.drop_first()),
    decreases frames.len(),
{
    if frames.len() > 1 {
        lemma_framed_first(frames.drop_last());
        assert(frames.drop_last().drop_first() =~= frames.drop_first().drop_last());
        assert(framed(frames) =~= be_bytes(frames[0].len()) + frames[0] + framed(
            frames.drop_first(),
        ));
    } else {
        assert(frames.drop_last() =~= Seq::<Seq<u8>>::empty());
        assert(frames.drop_first() =~= Seq::<Seq<u8>>::empty());
        assert(framed(frames) =~= be_bytes(frames[0].len()) + frames[0] + framed(
            frames.drop_first(),
        ));
    }
}

/// A bundle of frames that each decode to a record decodes to those records,
/// in order, wherever there is room for all of them.
pub proof fn law_bundle_round_trip(frames: Seq<Seq<u8>>, records: Seq<SignedView>, room: nat)
    requires
        frames.len() == records.len(),
        frames.len() <= room,
        forall|i: int|
            0 <= i < frames.len() ==> decoded_record(#[trigger] frames[i]) == Some(records[i]),
    ensures
        unbundled(framed(frames), room) == Ok::<_, BundleFault>(records),
    decreases frames.len(),
{
    if frames.len() == 0 {
        assert(records =~= Seq::<SignedView>::empty());
    } else {
        let first = frames[0];
        let rest = frames.drop_first();
        assert(decoded_record(first) == Some(records[0]));
        lemma_framed_first(frames);
        lemma_be_bytes(first.len());
        let bytes = framed(frames);
        assert(bytes.take(4) =~= be_bytes(first.len()));
        assert(bytes.subrange(4, 4 + first.len() as int) =~= first);
        assert(bytes.skip(4 + first.len() as int) =~= framed(rest));
        assert forall|i: int| 0 <= i < rest.len() implies decoded_record(#[trigger] rest[i]) == Some(
            records.drop_first()[i],
        ) by {
            assert(decoded_record(frames[i + 1]) == Some(records[i + 1]));
        }
        law_bundle_round_trip(rest, records.drop_first(), (room - 1) as nat);
        assert(seq![records[0]] + records.drop_first() =~= records);
    }
}

fn append(bytes: &mut Vec<u8>, tail: &[u8])
    ensures
        final(bytes)@ == old(bytes)@ + tail@,
{
    let ghost before = bytes@;
    let mut index: usize = 0;
    proof {
        assert(before + tail@.take(0) =~= before);
    }
    while index < tail.len()
        invariant
            index <= tail@.len(),
            bytes@ == before + tail@.take(index as int),
        decreases tail@.len() - index,
    {
        bytes.push(tail[index]);
        proof {
            assert(before + tail@.take(index as int + 1) =~= (before + tail@.take(
                index as int,
            )).push(tail@[index as int]));
        }
        index += 1;
    }
    assert(tail@.take(tail@.len() as int) =~= tail@);
}

/// Append a number as four bytes, high byte first.
pub(crate) fn push_be(bytes: &mut Vec<u8>, value: u32)
    ensures
        final(bytes)@ == old(bytes)@ + be_bytes(value as nat),
{
    bytes.push((value / 0x100_0000) as u8);
    bytes.push((value / 0x1_0000 % 256) as u8);
    bytes.push((value / 256 % 256) as u8);
    bytes.push((value % 256) as u8);
    assert(bytes@ =~= old(bytes)@ + be_bytes(value as nat));
}

/// Put one frame behind its length at the end of a bundle.
///
/// A frame above the limit of one record is refused.
pub fn push_frame(bytes: &mut Vec<u8>, frame: &[u8]) -> (pushed: Result<(), String>)
    ensures
        if frame@.len() <= MAX_SIGNED_ADDRESS_BYTES {
            pushed is Ok && final(bytes)@ == old(bytes)@ + be_bytes(frame@.len()) + frame@
        } else {
            (pushed matches Err(error) && error@ == "signed record exceeds limit"@) && final(bytes)@
                == old(bytes)@
        },
{
    if frame.len() > MAX_SIGNED_ADDRESS_BYTES {
        return Err("signed record exceeds limit".to_owned());
    }
    let length: u32 = frame.len() as u32;
    push_be(bytes, length);
    append(bytes, frame);
    Ok(())
}

/// The length of the next frame of a bundle that is read from a
/// position on.
pub fn read_frame(bytes: &[u8], from: usize, room: usize) -> (frame: Result<usize, String>)
    requires
        from <= bytes@.len(),
    ensures
        match next_frame(bytes@.skip(from as int), room as nat) {
            Err(fault) => bundle_refused(frame, fault),
            Ok((body, rest)) => frame matches Ok(length) && from + 4 + length <= bytes@.len() && body
                == bytes@.subrange(from + 4, from + 4 + length) && rest == bytes@.skip(
                from + 4 + length,
            ),
        },
{
    let ghost tail = bytes@.skip(from as int);
    if room == 0 || bytes.len() - from < 4 {
        return Err("invalid signed record bundle".to_owned());
    }
    let length: u32 = ((bytes[from] as u32 * 256 + bytes[from + 1] as u32) * 256 + bytes[from
        + 2] as u32) * 256 + bytes[from + 3] as u32;
    proof {
        reveal_with_fuel(key_value, 5);
        let s = tail.take(4);
        assert(s.drop_last() =~= seq![s[0], s[1], s[2]]);
        assert(s.drop_last().drop_last() =~= seq![s[0], s[1]]);
        assert(s.drop_last().drop_last().drop_last() =~= seq![s[0]]);
        assert(s.drop_last().drop_last().drop_last().drop_last() =~= Seq::<u8>::empty());
        assert(key_value(s) == length);
    }
    let length = length as usize;
    if length > bytes.len() - from - 4 {
        return Err("truncated signed record".to_owned());
    }
    proof {
        assert(tail.subrange(4, 4 + length as int) =~= bytes@.subrange(
            from + 4,
            from + 4 + length,
        ));
        assert(tail.skip(4 + length as int) =~= bytes@.skip(from + 4 + length));
    }
    Ok(length)
}

/// Whether the encoding of a record is within the limit of one record.
pub open spec fn bundleable(record: SignedView) -> bool {
    signed_encoding(record.parts()).len() <= MAX_SIGNED_ADDRESS_BYTES
}

/// The encoding of each record.
pub open spec fn encodings(records: Seq<SignedView>) -> Seq<Seq<u8>> {
    records.map(|_i: int, r: SignedView| signed_encoding(r.parts()))
}

/// Encode signed records in a length-delimited binary body, outside JSON
/// headers.
///
/// The first record whose encoding exceeds the limit of one record is refused,
/// which happens to none within the decoding bounds. Those are read back as they
/// were.
pub fn encode_record_bundle(records: &[SignedAddressRecord]) -> (bundle: Result<Vec<u8>, String>)
    ensures
        ({
            let views = signed_views(records@);
            match bundle {
                Ok(bytes) => {
                    &&& forall|i: int| 0 <= i < views.len() ==> bundleable(#[trigger] views[i])
                    &&& bytes@ == framed(encodings(views))
                    &&& (forall|i: int|
                        0 <= i < views.len() ==> (#[trigger] views[i]).within_limits()) ==> forall|
                        room: nat,
                    |
                        room >= views.len() ==> #[trigger] unbundled(bytes@, room) == Ok::<
                            _,
                            BundleFault,
                        >(views)
                },
                Err(error) => exists|i: int|
                    {
                        &&& 0 <= i < views.len()
                        &&& !bundleable(#[trigger] views[i])
                        &&& forall|j: int| 0 <= j < i ==> bundleable(#[trigger] views[j])
                        &&& !views[i].within_limits()
                        &&& error@ == "signed record exceeds limit"@
                    },
            }
        }),
{
    let ghost views = signed_views(records@);
    let mut bytes: Vec<u8> = Vec::new();
    let mut index: usize = 0;
    proof {
        assert(encodings(views.take(0)) =~= Seq::<Seq<u8>>::empty());
    }
    while index < records.len()
        invariant
            index <= records@.len(),
            views == signed_views(records@),
            forall|i: int| 0 <= i < index ==> bundleable(#[trigger] views[i]),
            forall|i: int|
                0 <= i < index && (#[trigger] views[i]).within_limits() ==> decoded_record(
                    encodings(views)[i],
                ) == Some(views[i]),
            bytes@ == framed(encodings(views.take(index as int))),
        decreases records@.len() - index,
    {
        assert(views[index as int] == records@[index as int]@);
        let encoded = match records[index].encode() {
            Ok(encoded) => encoded,
            Err(error) => {
                return Err(error);
            },
        };
        match push_frame(&mut bytes, &encoded) {
            Ok(()) => {},
            Err(error) => {
                return Err(error);
            },
        }
        proof {
            let taken = encodings(views.take(index as int + 1));
            assert(taken.drop_last() =~= encodings(views.take(index as int)));
            assert(taken.last() == encoded@);
            assert(encodings(views)[index as int] == encoded@);
        }
        index += 1;
    }
    proof {
        assert(views.take(views.len() as int) =~= views);
        if forall|i: int| 0 <= i < views.len() ==> (#[trigger] views[i]).within_limits() {
            assert forall|room: nat| room >= views.len() implies #[trigger] unbundled(bytes@, room)
                == Ok::<_, BundleFault>(views) by {
                let frames = encodings(views);
                assert forall|i: int| 0 <= i < frames.len() implies decoded_record(
                    #[trigger] frames[i],
                ) == Some(views[i]) by {
                    assert(views[i].within_limits());
                }
                law_bundle_round_trip(frames, views, room);
            }
        }
    }
    Ok(bytes)
}

proof fn lemma_unbundled_step(
    bytes: Seq<u8>,
    room: nat,
    done: Seq<SignedView>,
    rest: Result<Seq<SignedView>, BundleFault>,
)
    requires
        bytes.len() > 0,
        next_frame(bytes, room) is Ok,
        decoded_record(next_frame(bytes, room)->Ok_0.0) is Some,
        rest == unbundled(next_frame(bytes, room)->Ok_0.1, (room - 1) as nat),
    ensures
        prepend(done, unbundled(bytes, room)) == prepend(
            done.push(decoded_record(next_frame(bytes, room)->Ok_0.0)->0),
            rest,
        ),
{
    let record = decoded_record(next_frame(bytes, room)->Ok_0.0)->0;
    if rest is Ok {
        assert(done + (seq![record] + rest->Ok_0) =~= done.push(record) + rest->Ok_0);
    }
}

spec fn prepend(
    done: Seq<SignedView>,
    rest: Result<Seq<SignedView>, BundleFault>,
) -> Result<Seq<SignedView>, BundleFault> {
    match rest {
        Ok(records) => Ok(done + records),
        Err(fault) => Err(fault),
    }
}

/// Decode a bounded bundle. Callers must verify each record before accepting
/// it.
pub fn decode_record_bundle(bytes: &[u8], max_records: usize) -> (decoded: Result<
    Vec<SignedAddressRecord>,
    String,
>)
    ensures
        match unbundled(bytes@, max_records as nat) {
            Ok(records) => decoded matches Ok(r) && signed_views(r@) == records,
            Err(fault) => bundle_refused(decoded, fault),
        },
{
    let mut records: Vec<SignedAddressRecord> = Vec::new();
    let mut from: usize = 0;
    proof {
        assert(bytes@.skip(0) =~= bytes@);
        assert(signed_views(records@) =~= Seq::empty());
        let whole = unbundled(bytes@, max_records as nat);
        if whole is Ok {
            assert(Seq::<SignedView>::empty() + whole->Ok_0 =~= whole->Ok_0);
        }
    }
    while from < bytes.len()
        invariant
            from <= bytes@.len(),
            records@.len() <= max_records,
            unbundled(bytes@, max_records as nat) == prepend(
                signed_views(records@),
                unbundled(bytes@.skip(from as int), (max_records - records@.len()) as nat),
            ),
        decreases bytes@.len() - from,
    {
        let room: usize = max_records - records.len();
        let ghost tail = bytes@.skip(from as int);
        let length = match read_frame(bytes, from, room) {
            Ok(length) => length,
            Err(error) => {
                return Err(error);
            },
        };
        let frame = slice_of(bytes, from + 4, from + 4 + length);
        let record = match SignedAddressRecord::decode(&frame) {
            Ok(record) => record,
            Err(error) => {
                return Err(error);
            },
        };
        let ghost done = signed_views(records@);
        let ghost added = record@;
        records.push(record);
        proof {
            lemma_unbundled_step(
                tail,
                room as nat,
                done,
                unbundled(tail.skip(4 + length as int), (room - 1) as nat),
            );
            assert(tail.skip(4 + length as int) =~= bytes@.skip(from + 4 + length));
            assert(signed_views(records@) =~= done.push(added));
        }
        from = from + 4 + length;
    }
    proof {
        assert(bytes@.skip(from as int) =~= Seq::<u8>::empty());
        assert(signed_views(records@) + Seq::<SignedView>::empty() =~= signed_views(records@));
    }
    Ok(records)
}

fn slice_of(bytes: &[u8], from: usize, to: usize) -> (part: Vec<u8>)
    requires
        from <= to <= bytes@.len(),
    ensures
        part@ == bytes@.subrange(from as int, to as int),
{
    let part = &bytes[from..to];
    copy_bytes(part)
}

} // verus!
