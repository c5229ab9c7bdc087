//! The versioned binary save format: little-endian throughout, a magic
//! header, a format version, then each activity as a length-prefixed UTF-8
//! name, a starting date, and a counted list of completed dates, each date
//! as year (two bytes), month, and day.
//!
//! Decoding validates the magic header, the version, every date, and every
//! name, and reports exactly why a stream was rejected; it never panics.

use vstd::prelude::*;
use vstd::bytes::{
    spec_u16_to_le_bytes, spec_u16_from_le_bytes, spec_u32_to_le_bytes, spec_u32_from_le_bytes,
    u16_from_le_bytes, u16_to_le_bytes, u32_from_le_bytes, u32_to_le_bytes,
    lemma_auto_spec_u16_to_from_le_bytes, lemma_auto_spec_u32_to_from_le_bytes,
};
use vstd::utf8::{valid_utf8, decode_utf8, encode_utf8};
use vstd::slice::slice_subrange;
use crate::date_util::{Date, days_in_month};
use crate::user_data::{Activity, ActivityModel, UserData};
use crate::streak::HasDate;

verus! {

/// The format version this codec writes and the only one it reads.
pub const SAVE_VERSION: u16 = 1;

/// Why a byte stream was rejected.
#[derive(Clone, Copy, PartialEq, Eq, Structural, Debug)]
pub enum DecodeError {
    /// The stream does not start with the magic header, or a date field does
    /// not name a calendar day.
    FormatError,
    /// The stream carries a format version this codec does not read.
    VersionError,
    /// The stream ends before an expected field is complete.
    TruncatedError,
    /// An activity name is not valid UTF-8.
    EncodingError,
}

/// The magic header: the bytes of "CALDOSAVE" in ASCII.
pub open spec fn spec_magic() -> Seq<u8> {
    seq![67u8, 65u8, 76u8, 68u8, 79u8, 83u8, 65u8, 86u8, 69u8]
}

/// The magic header as a vector.
fn magic_bytes() -> (r: Vec<u8>)
    ensures
        r@ == spec_magic(),
{
    let mut r: Vec<u8> = Vec::new();
    r.push(67);
    r.push(65);
    r.push(76);
    r.push(68);
    r.push(79);
    r.push(83);
    r.push(65);
    r.push(86);
    r.push(69);
    proof {
        assert(r@ =~= spec_magic());
    }
    r
}

/// The four bytes a date is written as.
pub open spec fn spec_encode_date(d: Date) -> Seq<u8> {
    spec_u16_to_le_bytes(d.year) + seq![d.month, d.day]
}

/// The completed dates, written one after the other.
pub open spec fn spec_encode_dates(dates: Seq<Date>) -> Seq<u8>
    decreases dates.len(),
{
    if dates.len() == 0 {
        Seq::empty()
    } else {
        spec_encode_date(dates[0]) + spec_encode_dates(dates.drop_first())
    }
}

/// One activity: name length, name bytes, starting date, date count, dates.
pub open spec fn spec_encode_activity(a: ActivityModel) -> Seq<u8> {
    seq![encode_utf8(a.name).len() as u8] + encode_utf8(a.name) + spec_encode_date(a.starting_date)
        + spec_u32_to_le_bytes(a.dates.len() as u32) + spec_encode_dates(a.dates)
}

/// The activities, written one after the other.
pub open spec fn spec_encode_activities(activities: Seq<ActivityModel>) -> Seq<u8>
    decreases activities.len(),
{
    if activities.len() == 0 {
        Seq::empty()
    } else {
        spec_encode_activity(activities[0]) + spec_encode_activities(activities.drop_first())
    }
}

/// A whole save: magic header, version, activity count, activities.
pub open spec fn spec_encode(activities: Seq<ActivityModel>) -> Seq<u8> {
    spec_magic() + spec_u16_to_le_bytes(SAVE_VERSION) + spec_u32_to_le_bytes(
        activities.len() as u32,
    ) + spec_encode_activities(activities)
}

/// The format can carry the activity: its name fits the one-byte length
/// prefix and its date count fits the four-byte count field.
pub open spec fn spec_activity_encodable(a: ActivityModel) -> bool {
    &&& encode_utf8(a.name).len() <= 255
    &&& a.dates.len() <= u32::MAX
}

/// The format can carry the data: every activity fits and the activity
/// count fits its four-byte field.
pub open spec fn spec_encodable(activities: Seq<ActivityModel>) -> bool {
    &&& activities.len() <= u32::MAX
    &&& forall|i: int|
        0 <= i < activities.len() ==> spec_activity_encodable(#[trigger] activities[i])
}

/// What reading one date at `pos` yields: the date and the position after
/// it, or the reason the read fails. A read fails when fewer than four bytes
/// remain, or when the fields do not name a calendar day.
pub open spec fn spec_parse_date(bytes: Seq<u8>, pos: int) -> Result<(Date, int), DecodeError> {
    if pos + 4 > bytes.len() {
        Err(DecodeError::TruncatedError)
    } else {
        let d = Date {
            year: spec_u16_from_le_bytes(bytes.subrange(pos, pos + 2)),
            month: bytes[pos + 2],
            day: bytes[pos + 3],
        };
        if d.wf() {
            Ok((d, pos + 4))
        } else {
            Err(DecodeError::FormatError)
        }
    }
}

/// What reading `n` dates in a row at `pos` yields.
pub open spec fn spec_parse_dates(bytes: Seq<u8>, pos: int, n: nat) -> Result<
    (Seq<Date>, int),
    DecodeError,
>
    decreases n,
{
    if n == 0 {
        Ok((Seq::empty(), pos))
    } else {
        match spec_parse_date(bytes, pos) {
            Ok((d, p)) => match spec_parse_dates(bytes, p, (n - 1) as nat) {
                Ok((rest, q)) => Ok((seq![d] + rest, q)),
                Err(e) => Err(e),
            },
            Err(e) => Err(e),
        }
    }
}

/// What reading one activity at `pos` yields: its model and the position
/// after it, or the reason the read fails, in the order the fields are read:
/// name length, name bytes (rejected when not UTF-8), starting date, date
/// count, dates.
pub open spec fn spec_parse_activity(bytes: Seq<u8>, pos: int) -> Result<
    (ActivityModel, int),
    DecodeError,
> {
    if pos + 1 > bytes.len() {
        Err(DecodeError::TruncatedError)
    } else {
        let name_len: int = bytes[pos] as int;
        if pos + 1 + name_len > bytes.len() {
            Err(DecodeError::TruncatedError)
        } else {
            let name_bytes = bytes.subrange(pos + 1, pos + 1 + name_len);
            if !valid_utf8(name_bytes) {
                Err(DecodeError::EncodingError)
            } else {
                match spec_parse_date(bytes, pos + 1 + name_len) {
                    Ok((start, p)) => {
                        if p + 4 > bytes.len() {
                            Err(DecodeError::TruncatedError)
                        } else {
                            let n_dates = spec_u32_from_le_bytes(bytes.subrange(p, p + 4));
                            match spec_parse_dates(bytes, p + 4, n_dates as nat) {
                                Ok((dates, q)) => Ok(
                                    (
                                        ActivityModel {
                                            name: decode_utf8(name_bytes),
                                            starting_date: start,
                                            dates,
                                        },
                                        q,
                                    ),
                                ),
                                Err(e) => Err(e),
                            }
                        }
                    },
                    Err(e) => Err(e),
                }
            }
        }
    }
}

/// What reading `n` activities in a row at `pos` yields.
pub open spec fn spec_parse_activities(bytes: Seq<u8>, pos: int, n: nat) -> Result<
    (Seq<ActivityModel>, int),
    DecodeError,
>
    decreases n,
{
    if n == 0 {
        Ok((Seq::empty(), pos))
    } else {
        match spec_parse_activity(bytes, pos) {
            Ok((a, p)) => match spec_parse_activities(bytes, p, (n - 1) as nat) {
                Ok((rest, q)) => Ok((seq![a] + rest, q)),
                Err(e) => Err(e),
            },
            Err(e) => Err(e),
        }
    }
}

/// What reading a whole save yields: the activity models in stream order, or
/// the first reason the stream is rejected. Bytes after the last activity
/// are ignored.
pub open spec fn spec_parse(bytes: Seq<u8>) -> Result<Seq<ActivityModel>, DecodeError> {
    if bytes.len() < 9 {
        Err(DecodeError::TruncatedError)
    } else if bytes.subrange(0, 9) != spec_magic() {
        Err(DecodeError::FormatError)
    } else if bytes.len() < 11 {
        Err(DecodeError::TruncatedError)
    } else if spec_u16_from_le_bytes(bytes.subrange(9, 11)) != SAVE_VERSION {
        Err(DecodeError::VersionError)
    } else if bytes.len() < 15 {
        Err(DecodeError::TruncatedError)
    } else {
        let n = spec_u32_from_le_bytes(bytes.subrange(11, 15));
        match spec_parse_activities(bytes, 15, n as nat) {
            Ok((activities, _)) => Ok(activities),
            Err(e) => Err(e),
        }
    }
}

/// The parsed dates with later repetitions of a date dropped, as a set-like
/// container keeps them.
pub open spec fn spec_dedup(dates: Seq<Date>) -> Seq<Date>
    decreases dates.len(),
{
    if dates.len() == 0 {
        Seq::empty()
    } else {
        let rest = spec_dedup(dates.drop_last());
        if dates.drop_last().contains(dates.last()) {
            rest
        } else {
            rest.push(dates.last())
        }
    }
}

/// Dropping repetitions keeps membership, yields no duplicates, and is the
/// identity on sequences that had none.
pub proof fn lemma_dedup_properties(dates: Seq<Date>)
    ensures
        spec_dedup(dates).no_duplicates(),
        forall|d: Date| #[trigger] spec_dedup(dates).contains(d) <==> dates.contains(d),
        dates.no_duplicates() ==> spec_dedup(dates) =~= dates,
    decreases dates.len(),
{
    if dates.len() > 0 {
        let prefix = dates.drop_last();
        let last = dates.last();
        lemma_dedup_properties(prefix);
        assert forall|d: Date| #[trigger] spec_dedup(dates).contains(d) <==> dates.contains(
            d,
        ) by {
            lemma_membership_drop_last(dates, d);
            if !prefix.contains(last) {
                lemma_membership_push(spec_dedup(prefix), last, d);
            }
        }
        if !prefix.contains(last) {
            assert forall|p: int, q: int|
                0 <= p < q < spec_dedup(dates).len() implies spec_dedup(dates)[p] != spec_dedup(
                dates,
            )[q] by {
                if q == spec_dedup(dates).len() - 1 {
                    assert(spec_dedup(prefix).contains(spec_dedup(prefix)[p]));
                }
            }
        }
        if dates.no_duplicates() {
            assert(!prefix.contains(last)) by {
                if prefix.contains(last) {
                    let j = choose|j: int| 0 <= j < prefix.len() && prefix[j] == last;
                    assert(dates[j] == dates[dates.len() - 1]);
                }
            }
            assert(prefix.no_duplicates());
            assert(spec_dedup(dates) =~= dates);
        }
    }
}

/// A sequence holds a value exactly when its last entry is that value or the
/// rest holds it.
proof fn lemma_membership_drop_last(s: Seq<Date>, d: Date)
    requires
        s.len() > 0,
    ensures
        s.contains(d) <==> (s.drop_last().contains(d) || s.last() == d),
{
    if s.drop_last().contains(d) {
        let j = choose|j: int| 0 <= j < s.len() - 1 && s.drop_last()[j] == d;
        assert(s[j] == d);
    }
    if s.contains(d) && s.last() != d {
        let j = choose|j: int| 0 <= j < s.len() && s[j] == d;
        assert(s.drop_last()[j] == d);
    }
}

/// Membership in a sequence after pushing one more entry.
proof fn lemma_membership_push(s: Seq<Date>, pushed: Date, d: Date)
    ensures
        s.push(pushed).contains(d) <==> (s.contains(d) || d == pushed),
{
    lemma_membership_drop_last(s.push(pushed), d);
    assert(s.push(pushed).drop_last() =~= s);
}

/// An activity as a set-like container reads it back: the same name and
/// starting date, the dates with repetitions dropped.
pub open spec fn spec_decoded_activity(m: ActivityModel) -> ActivityModel {
    ActivityModel { name: m.name, starting_date: m.starting_date, dates: spec_dedup(m.dates) }
}

/// Relies on `String::from_utf8`: it returns `Ok` exactly when the bytes are
/// a valid UTF-8 encoding, and then the string's characters are the ones the
/// bytes encode.
#[verifier::external_body]
fn bytes_to_string(bytes: &[u8]) -> (r: Option<String>)
    ensures
        r is Some <==> valid_utf8(bytes@),
        r matches Some(s) ==> encode_utf8(s@) == bytes@,
{
    String::from_utf8(bytes.to_vec()).ok()
}

/// Read two little-endian bytes at `pos`.
fn read_u16(bytes: &[u8], pos: usize) -> (r: u16)
    requires
        pos + 2 <= bytes@.len(),
    ensures
        r == spec_u16_from_le_bytes(bytes@.subrange(pos as int, pos as int + 2)),
{
    proof {
        vstd::slice::axiom_spec_len(bytes);
    }
    u16_from_le_bytes(slice_subrange(bytes, pos, pos + 2))
}

/// Read four little-endian bytes at `pos`.
fn read_u32(bytes: &[u8], pos: usize) -> (r: u32)
    requires
        pos + 4 <= bytes@.len(),
    ensures
        r == spec_u32_from_le_bytes(bytes@.subrange(pos as int, pos as int + 4)),
{
    proof {
        vstd::slice::axiom_spec_len(bytes);
    }
    u32_from_le_bytes(slice_subrange(bytes, pos, pos + 4))
}

/// Read one date at `pos`.
fn decode_date(bytes: &[u8], pos: usize) -> (r: Result<(Date, usize), DecodeError>)
    requires
        pos <= bytes@.len(),
    ensures
        match r {
            Ok((d, p)) => {
                &&& spec_parse_date(bytes@, pos as int) == Ok::<_, DecodeError>((d, p as int))
                &&& d.wf()
                &&& pos < p <= bytes@.len()
            },
            Err(e) => spec_parse_date(bytes@, pos as int) == Err::<(Date, int), _>(e),
        },
{
    if bytes.len() - pos < 4 {
        return Err(DecodeError::TruncatedError);
    }
    let year = read_u16(bytes, pos);
    let month = bytes[pos + 2];
    let day = bytes[pos + 3];
    let d = Date { year, month, day };
    if 1 <= month && month <= 12 && 1 <= day && day <= days_in_month(year as i32, month) {
        Ok((d, pos + 4))
    } else {
        Err(DecodeError::FormatError)
    }
}

/// Read one activity at `pos`. Repeated dates collapse to one entry, as the
/// set they populate.
#[verifier::loop_isolation(false)]
fn decode_activity(bytes: &[u8], pos: usize) -> (r: Result<(Activity, usize), DecodeError>)
    requires
        pos <= bytes@.len(),
    ensures
        match r {
            Ok((a, p)) => {
                &&& spec_parse_activity(bytes@, pos as int) matches Ok((m, q)) && a@
                    =~~= spec_decoded_activity(m) && p as int == q
                &&& a.wf()
                &&& pos < p <= bytes@.len()
            },
            Err(e) => spec_parse_activity(bytes@, pos as int) == Err::<(ActivityModel, int), _>(e),
        },
{
    if bytes.len() - pos < 1 {
        return Err(DecodeError::TruncatedError);
    }
    let name_len: usize = bytes[pos] as usize;
    if bytes.len() - (pos + 1) < name_len {
        return Err(DecodeError::TruncatedError);
    }
    let name_slice = slice_subrange(bytes, pos + 1, pos + 1 + name_len);
    let name = match bytes_to_string(name_slice) {
        Some(s) => s,
        None => {
            return Err(DecodeError::EncodingError);
        },
    };
    proof {
        vstd::utf8::encode_utf8_decode_utf8(name@);
    }
    let (starting_date, after_start) = match decode_date(bytes, pos + 1 + name_len) {
        Ok(x) => x,
        Err(e) => {
            return Err(e);
        },
    };
    if bytes.len() - after_start < 4 {
        return Err(DecodeError::TruncatedError);
    }
    let n_dates = read_u32(bytes, after_start);
    let mut q: usize = after_start + 4;
    let mut dates: Vec<Date> = Vec::new();
    let ghost mut parsed = Seq::<Date>::empty();
    let mut k: u32 = 0;
    proof {
        assert(spec_dedup(parsed) =~= dates@);
    }
    while k < n_dates
        invariant
            k <= n_dates,
            after_start + 4 <= q <= bytes@.len(),
            dates@ =~= spec_dedup(parsed),
            dates@.no_duplicates(),
            forall|i: int| 0 <= i < dates@.len() ==> (#[trigger] dates@[i]).wf(),
            forall|i: int| 0 <= i < parsed.len() ==> (#[trigger] parsed[i]).wf(),
            spec_parse_dates(bytes@, after_start + 4, n_dates as nat) == (match spec_parse_dates(
                bytes@,
                q as int,
                (n_dates - k) as nat,
            ) {
                Ok((rest, end)) => Ok::<_, DecodeError>((parsed + rest, end)),
                Err(e) => Err(e),
            }),
        decreases n_dates - k,
    {
        let (d, q2) = match decode_date(bytes, q) {
            Ok(x) => x,
            Err(e) => {
                return Err(e);
            },
        };
        proof {
            lemma_dedup_properties(parsed);
        }
        if !dates.has_date(d) {
            dates.push(d);
        }
        proof {
            let parsed2 = parsed.push(d);
            assert(parsed2.drop_last() =~= parsed);
            assert(spec_dedup(parsed2) =~= dates@);
            assert forall|i: int| 0 <= i < parsed2.len() implies (#[trigger] parsed2[i]).wf() by {
                if i == parsed.len() {
                    assert(parsed2[i] == d);
                }
            }
            assert(dates@.no_duplicates()) by {
                lemma_dedup_properties(parsed2);
            }
            parsed = parsed2;
        }
        q = q2;
        k = k + 1;
        proof {
            match spec_parse_dates(bytes@, q as int, (n_dates - k) as nat) {
                Ok((rest, end)) => {
                    assert(parsed + rest =~= parsed.drop_last() + (seq![parsed.last()] + rest));
                },
                Err(_) => {},
            }
        }
    }
    let activity = Activity { name, starting_date, dates };
    proof {
        assert(parsed + Seq::<Date>::empty() =~= parsed);
        assert(spec_parse_dates(bytes@, after_start + 4, n_dates as nat) == Ok::<_, DecodeError>(
            (parsed, q as int),
        ));
        assert(spec_parse_activity(bytes@, pos as int) matches Ok((m, end)) && activity@
            =~~= spec_decoded_activity(m) && q as int == end);
    }
    Ok((activity, q))
}

/// Decode a saved byte stream into user data. Succeeds exactly on streams
/// the format describes, and otherwise reports the first offence: a missing
/// or foreign magic header, an unsupported version, a stream that ends
/// mid-field, a name that is not UTF-8, or fields that name no calendar day.
/// Within each activity, repeated dates collapse to one entry.
#[verifier::loop_isolation(false)]
pub fn decode(bytes: &[u8]) -> (r: Result<UserData, DecodeError>)
    ensures
        match spec_parse(bytes@) {
            Ok(ms) => r matches Ok(u) && u@ =~~= ms.map_values(
                |m: ActivityModel| spec_decoded_activity(m),
            ) && u.wf(),
            Err(e) => r matches Err(e2) && e2 == e,
        },
{
    if bytes.len() < 9 {
        return Err(DecodeError::TruncatedError);
    }
    let magic = magic_bytes();
    let mut i: usize = 0;
    while i < 9
        invariant
            i <= 9,
            forall|j: int| 0 <= j < i ==> bytes@[j] == spec_magic()[j],
        decreases 9 - i,
    {
        if bytes[i] != magic[i] {
            proof {
                assert(bytes@.subrange(0, 9)[i as int] != spec_magic()[i as int]);
            }
            return Err(DecodeError::FormatError);
        }
        i += 1;
    }
    proof {
        assert(bytes@.subrange(0, 9) =~= spec_magic());
    }
    if bytes.len() < 11 {
        return Err(DecodeError::TruncatedError);
    }
    let version = read_u16(bytes, 9);
    if version != SAVE_VERSION {
        return Err(DecodeError::VersionError);
    }
    if bytes.len() < 15 {
        return Err(DecodeError::TruncatedError);
    }
    let n = read_u32(bytes, 11);
    let mut pos: usize = 15;
    let mut activities: Vec<Activity> = Vec::new();
    let ghost mut parsed = Seq::<ActivityModel>::empty();
    let mut k: u32 = 0;
    while k < n
        invariant
            k <= n,
            pos <= bytes@.len(),
            activities@.len() == parsed.len(),
            forall|t: int|
                0 <= t < parsed.len() ==> (#[trigger] activities@[t])@ == spec_decoded_activity(
                    parsed[t],
                ),
            forall|t: int| 0 <= t < activities@.len() ==> (#[trigger] activities@[t]).wf(),
            spec_parse_activities(bytes@, 15, n as nat) == (match spec_parse_activities(
                bytes@,
                pos as int,
                (n - k) as nat,
            ) {
                Ok((rest, end)) => Ok::<_, DecodeError>((parsed + rest, end)),
                Err(e) => Err(e),
            }),
        decreases n - k,
    {
        let (a, p2) = match decode_activity(bytes, pos) {
            Ok(x) => x,
            Err(e) => {
                return Err(e);
            },
        };
        let ghost m = match spec_parse_activity(bytes@, pos as int) {
            Ok((m, _)) => m,
            Err(_) => a@,
        };
        proof {
            assert(a@ =~~= spec_decoded_activity(m));
            assert(parsed.push(m).drop_last() =~= parsed);
        }
        activities.push(a);
        proof {
            parsed = parsed.push(m);
        }
        pos = p2;
        k = k + 1;
        proof {
            match spec_parse_activities(bytes@, pos as int, (n - k) as nat) {
                Ok((rest, end)) => {
                    assert(parsed + rest =~= parsed.drop_last() + (seq![parsed.last()] + rest));
                },
                Err(_) => {},
            }
        }
    }
    let data = UserData { activities };
    proof {
        assert(parsed + Seq::<ActivityModel>::empty() =~= parsed);
        assert(spec_parse_activities(bytes@, 15, n as nat) == Ok::<_, DecodeError>(
            (parsed, pos as int),
        ));
        assert forall|t: int| 0 <= t < data@.len() implies (#[trigger] data@[t]).wf() by {
            assert(data@[t] == activities@[t]@);
        }
        assert(data@ =~~= parsed.map_values(|m: ActivityModel| spec_decoded_activity(m))) by {
            assert forall|t: int| 0 <= t < data@.len() implies data@[t] == parsed.map_values(
                |m: ActivityModel| spec_decoded_activity(m),
            )[t] by {
                assert(data@[t] == activities@[t]@);
            }
        }
    }
    Ok(data)
}

/// Append one encoded activity.
#[verifier::loop_isolation(false)]
fn encode_activity_into(out: &mut Vec<u8>, a: &Activity)
    requires
        spec_activity_encodable(a@),
    ensures
        final(out)@ == old(out)@ + spec_encode_activity(a@),
{
    let name_bytes: &[u8] = a.name.as_str().as_bytes();
    out.push(name_bytes.len() as u8);
    out.extend_from_slice(name_bytes);
    let mut year = u16_to_le_bytes(a.starting_date.year);
    out.append(&mut year);
    out.push(a.starting_date.month);
    out.push(a.starting_date.day);
    let mut count = u32_to_le_bytes(a.dates.len() as u32);
    out.append(&mut count);
    let ghost before_dates = out@;
    let mut j: usize = 0;
    proof {
        assert(a@.dates.take(0) =~= Seq::<Date>::empty());
    }
    while j < a.dates.len()
        invariant
            j <= a@.dates.len(),
            out@ == before_dates + spec_encode_dates(a@.dates.take(j as int)),
        decreases a@.dates.len() - j,
    {
        let d = a.dates[j];
        let mut dyear = u16_to_le_bytes(d.year);
        out.append(&mut dyear);
        out.push(d.month);
        out.push(d.day);
        proof {
            lemma_encode_dates_push(a@.dates.take(j as int), a@.dates[j as int]);
            assert(a@.dates.take(j + 1) =~= a@.dates.take(j as int).push(a@.dates[j as int]));
            assert(out@ =~= before_dates + spec_encode_dates(a@.dates.take(j + 1)));
        }
        j += 1;
    }
    proof {
        assert(a@.dates.take(a@.dates.len() as int) =~= a@.dates);
        assert(out@ =~= old(out)@ + spec_encode_activity(a@));
    }
}

/// Appending a date extends an encoding at the end.
proof fn lemma_encode_dates_push(dates: Seq<Date>, d: Date)
    ensures
        spec_encode_dates(dates.push(d)) == spec_encode_dates(dates) + spec_encode_date(d),
    decreases dates.len(),
{
    if dates.len() == 0 {
        assert(dates.push(d)[0] == d);
        assert(dates.push(d).drop_first() =~= dates);
        assert(spec_encode_dates(dates.push(d)) =~= spec_encode_dates(dates) + spec_encode_date(
            d,
        ));
    } else {
        assert(dates.push(d).drop_first() =~= dates.drop_first().push(d));
        assert(dates.push(d)[0] == dates[0]);
        lemma_encode_dates_push(dates.drop_first(), d);
        assert(spec_encode_dates(dates.push(d)) =~= spec_encode_dates(dates) + spec_encode_date(
            d,
        ));
    }
}

/// Appending an activity extends an encoding at the end.
proof fn lemma_encode_activities_push(activities: Seq<ActivityModel>, a: ActivityModel)
    ensures
        spec_encode_activities(activities.push(a)) == spec_encode_activities(activities)
            + spec_encode_activity(a),
    decreases activities.len(),
{
    if activities.len() == 0 {
        assert(activities.push(a)[0] == a);
        assert(activities.push(a).drop_first() =~= activities);
        assert(spec_encode_activities(activities.push(a)) =~= spec_encode_activities(activities)
            + spec_encode_activity(a));
    } else {
        assert(activities.push(a).drop_first() =~= activities.drop_first().push(a));
        assert(activities.push(a)[0] == activities[0]);
        lemma_encode_activities_push(activities.drop_first(), a);
        assert(spec_encode_activities(activities.push(a)) =~= spec_encode_activities(activities)
            + spec_encode_activity(a));
    }
}

/// Encode the data as a saved byte stream: deterministic field order, always
/// the current magic header and version.
#[verifier::loop_isolation(false)]
pub fn encode(data: &UserData) -> (r: Vec<u8>)
    requires
        spec_encodable(data@),
    ensures
        r@ == spec_encode(data@),
{
    let mut out = magic_bytes();
    let mut version = u16_to_le_bytes(SAVE_VERSION);
    out.append(&mut version);
    let mut count = u32_to_le_bytes(data.activities.len() as u32);
    out.append(&mut count);
    let ghost header = out@;
    let mut i: usize = 0;
    proof {
        assert(data@.take(0) =~= Seq::<ActivityModel>::empty());
    }
    while i < data.activities.len()
        invariant
            i <= data@.len(),
            out@ == header + spec_encode_activities(data@.take(i as int)),
        decreases data@.len() - i,
    {
        proof {
            assert(data@[i as int] == data.activities@[i as int]@);
            assert(spec_activity_encodable(data@[i as int]));
        }
        encode_activity_into(&mut out, &data.activities[i]);
        proof {
            lemma_encode_activities_push(data@.take(i as int), data@[i as int]);
            assert(data@.take(i + 1) =~= data@.take(i as int).push(data@[i as int]));
        }
        i += 1;
    }
    proof {
        assert(data@.take(data@.len() as int) =~= data@);
        assert(out@ =~= spec_encode(data@));
    }
    out
}

/// Every date is written as exactly four bytes.
proof fn lemma_encode_dates_len(dates: Seq<Date>)
    ensures
        spec_encode_dates(dates).len() == 4 * dates.len(),
    decreases dates.len(),
{
    lemma_auto_spec_u16_to_from_le_bytes();
    if dates.len() > 0 {
        lemma_encode_dates_len(dates.drop_first());
    }
}

/// How many bytes an activity is written as.
proof fn lemma_encode_activity_len(a: ActivityModel)
    ensures
        spec_encode_activity(a).len() == 9 + encode_utf8(a.name).len() + 4 * a.dates.len(),
{
    lemma_auto_spec_u16_to_from_le_bytes();
    lemma_auto_spec_u32_to_from_le_bytes();
    lemma_encode_dates_len(a.dates);
}

/// One byte of a window of bytes placed at `pos`.
proof fn lemma_window_byte(bytes: Seq<u8>, pos: int, window: Seq<u8>, i: int)
    requires
        0 <= pos,
        pos + window.len() <= bytes.len(),
        bytes.subrange(pos, pos + window.len()) == window,
        0 <= i < window.len(),
    ensures
        bytes[pos + i] == window[i],
{
    assert(bytes.subrange(pos, pos + window.len())[i] == bytes[pos + i]);
}

/// A stretch of a window of bytes placed at `pos`.
proof fn lemma_window_slice(bytes: Seq<u8>, pos: int, window: Seq<u8>, lo: int, hi: int)
    requires
        0 <= pos,
        pos + window.len() <= bytes.len(),
        bytes.subrange(pos, pos + window.len()) == window,
        0 <= lo <= hi <= window.len(),
    ensures
        bytes.subrange(pos + lo, pos + hi) == window.subrange(lo, hi),
{
    assert forall|j: int| 0 <= j < hi - lo implies bytes.subrange(pos + lo, pos + hi)[j]
        == window.subrange(lo, hi)[j] by {
        assert(bytes.subrange(pos, pos + window.len())[lo + j] == bytes[pos + lo + j]);
        assert(bytes.subrange(pos + lo, pos + hi)[j] == bytes[pos + lo + j]);
    }
    assert(bytes.subrange(pos + lo, pos + hi) =~= window.subrange(lo, hi));
}

/// A date read back from where its encoding was written is the same date.
proof fn lemma_parse_date_at(bytes: Seq<u8>, pos: int, d: Date)
    requires
        d.wf(),
        0 <= pos,
        pos + 4 <= bytes.len(),
        bytes.subrange(pos, pos + 4) == spec_encode_date(d),
    ensures
        spec_parse_date(bytes, pos) == Ok::<_, DecodeError>((d, pos + 4)),
{
    lemma_auto_spec_u16_to_from_le_bytes();
    let enc = spec_encode_date(d);
    assert(bytes.subrange(pos, pos + 2) =~= spec_u16_to_le_bytes(d.year)) by {
        assert(bytes.subrange(pos, pos + 4)[0] == bytes[pos]);
        assert(bytes.subrange(pos, pos + 4)[1] == bytes[pos + 1]);
    }
    assert(bytes[pos + 2] == enc[2] && bytes[pos + 3] == enc[3]) by {
        assert(bytes.subrange(pos, pos + 4)[2] == bytes[pos + 2]);
        assert(bytes.subrange(pos, pos + 4)[3] == bytes[pos + 3]);
    }
}

/// Dates read back from where their encodings were written are the same
/// dates.
proof fn lemma_parse_dates_at(bytes: Seq<u8>, pos: int, dates: Seq<Date>)
    requires
        forall|i: int| 0 <= i < dates.len() ==> (#[trigger] dates[i]).wf(),
        0 <= pos,
        pos + 4 * dates.len() <= bytes.len(),
        bytes.subrange(pos, pos + 4 * dates.len()) == spec_encode_dates(dates),
    ensures
        spec_parse_dates(bytes, pos, dates.len()) == Ok::<_, DecodeError>(
            (dates, pos + 4 * dates.len()),
        ),
    decreases dates.len(),
{
    if dates.len() == 0 {
        assert(dates =~= Seq::<Date>::empty());
    } else {
        lemma_auto_spec_u16_to_from_le_bytes();
        let d0 = dates[0];
        let rest = dates.drop_first();
        let enc = spec_encode_dates(dates);
        lemma_encode_dates_len(dates);
        lemma_encode_dates_len(rest);
        lemma_window_slice(bytes, pos, enc, 0, 4);
        assert(enc.subrange(0, 4) =~= spec_encode_date(d0));
        lemma_parse_date_at(bytes, pos, d0);
        lemma_window_slice(bytes, pos, enc, 4, enc.len() as int);
        assert(enc.subrange(4, enc.len() as int) =~= spec_encode_dates(rest));
        lemma_parse_dates_at(bytes, pos + 4, rest);
        assert(seq![d0] + rest =~= dates);
    }
}

/// An activity read back from where its encoding was written is the same
/// activity.
proof fn lemma_parse_activity_at(bytes: Seq<u8>, pos: int, a: ActivityModel)
    requires
        a.wf(),
        spec_activity_encodable(a),
        0 <= pos,
        pos + spec_encode_activity(a).len() <= bytes.len(),
        bytes.subrange(pos, pos + spec_encode_activity(a).len()) == spec_encode_activity(a),
    ensures
        spec_parse_activity(bytes, pos) == Ok::<_, DecodeError>(
            (a, pos + spec_encode_activity(a).len()),
        ),
{
    lemma_auto_spec_u16_to_from_le_bytes();
    lemma_auto_spec_u32_to_from_le_bytes();
    lemma_encode_activity_len(a);
    lemma_encode_dates_len(a.dates);
    let enc = spec_encode_activity(a);
    let nb = encode_utf8(a.name);
    let nl = nb.len() as int;
    lemma_window_byte(bytes, pos, enc, 0);
    assert(enc[0] == nl as u8);
    lemma_window_slice(bytes, pos, enc, 1, 1 + nl);
    assert(enc.subrange(1, 1 + nl) =~= nb);
    assert(valid_utf8(nb)) by {
        vstd::utf8::encode_utf8_valid_utf8(a.name);
    }
    assert(decode_utf8(nb) == a.name) by {
        vstd::utf8::encode_utf8_decode_utf8(a.name);
    }
    lemma_window_slice(bytes, pos, enc, 1 + nl, 1 + nl + 4);
    assert(enc.subrange(1 + nl, 1 + nl + 4) =~= spec_encode_date(a.starting_date));
    lemma_parse_date_at(bytes, pos + 1 + nl, a.starting_date);
    let p = pos + 1 + nl + 4;
    lemma_window_slice(bytes, pos, enc, 1 + nl + 4, 1 + nl + 8);
    assert(enc.subrange(1 + nl + 4, 1 + nl + 8) =~= spec_u32_to_le_bytes(a.dates.len() as u32));
    assert(spec_u32_from_le_bytes(bytes.subrange(p, p + 4)) == a.dates.len() as u32);
    lemma_window_slice(bytes, pos, enc, 1 + nl + 8, enc.len() as int);
    assert(enc.subrange(1 + nl + 8, enc.len() as int) =~= spec_encode_dates(a.dates));
    lemma_parse_dates_at(bytes, p + 4, a.dates);
}

/// Activities read back from where their encodings were written are the same
/// activities.
proof fn lemma_parse_activities_at(bytes: Seq<u8>, pos: int, activities: Seq<ActivityModel>)
    requires
        forall|i: int| 0 <= i < activities.len() ==> (#[trigger] activities[i]).wf(),
        forall|i: int|
            0 <= i < activities.len() ==> spec_activity_encodable(#[trigger] activities[i]),
        0 <= pos,
        pos + spec_encode_activities(activities).len() <= bytes.len(),
        bytes.subrange(pos, pos + spec_encode_activities(activities).len())
            == spec_encode_activities(activities),
    ensures
        spec_parse_activities(bytes, pos, activities.len()) == Ok::<_, DecodeError>(
            (activities, pos + spec_encode_activities(activities).len()),
        ),
    decreases activities.len(),
{
    if activities.len() == 0 {
        assert(activities =~= Seq::<ActivityModel>::empty());
    } else {
        let a0 = activities[0];
        let rest = activities.drop_first();
        let enc = spec_encode_activities(activities);
        let enc0 = spec_encode_activity(a0);
        let enc_rest = spec_encode_activities(rest);
        lemma_window_slice(bytes, pos, enc, 0, enc0.len() as int);
        assert(enc.subrange(0, enc0.len() as int) =~= enc0);
        lemma_parse_activity_at(bytes, pos, a0);
        lemma_window_slice(bytes, pos, enc, enc0.len() as int, enc.len() as int);
        assert(enc.subrange(enc0.len() as int, enc.len() as int) =~= enc_rest);
        lemma_parse_activities_at(bytes, pos + enc0.len(), rest);
        assert(seq![a0] + rest =~= activities);
    }
}

/// Reading back a written save yields exactly the written activities, in
/// their order.
pub proof fn lemma_parse_encode(activities: Seq<ActivityModel>)
    requires
        spec_encodable(activities),
        forall|i: int| 0 <= i < activities.len() ==> (#[trigger] activities[i]).wf(),
    ensures
        spec_parse(spec_encode(activities)) == Ok::<_, DecodeError>(activities),
{
    lemma_auto_spec_u16_to_from_le_bytes();
    lemma_auto_spec_u32_to_from_le_bytes();
    let bytes = spec_encode(activities);
    let enc = spec_encode_activities(activities);
    assert(bytes.len() == 15 + enc.len());
    assert(bytes.subrange(0, 9) =~= spec_magic());
    assert(bytes.subrange(9, 11) =~= spec_u16_to_le_bytes(SAVE_VERSION));
    assert(bytes.subrange(11, 15) =~= spec_u32_to_le_bytes(activities.len() as u32));
    assert(bytes.subrange(15, 15 + enc.len() as int) =~= enc);
    lemma_parse_activities_at(bytes, 15, activities);
}

/// Round trip: decoding an encoded save yields the same user data, activity
/// for activity, with names, starting dates and date sets intact.
pub proof fn lemma_decode_encode_identity(activities: Seq<ActivityModel>)
    requires
        spec_encodable(activities),
        forall|i: int| 0 <= i < activities.len() ==> (#[trigger] activities[i]).wf(),
    ensures
        spec_parse(spec_encode(activities)) matches Ok(ms) && ms.map_values(
            |m: ActivityModel| spec_decoded_activity(m),
        ) =~~= activities,
{
    lemma_parse_encode(activities);
    let mapped = activities.map_values(|m: ActivityModel| spec_decoded_activity(m));
    assert forall|i: int| 0 <= i < activities.len() implies mapped[i] == activities[i] by {
        lemma_dedup_properties(activities[i].dates);
        assert(spec_decoded_activity(activities[i]) =~~= activities[i]);
    }
    assert(mapped =~~= activities);
}

/// A stream long enough to carry the magic header but carrying a foreign one
/// is rejected as not being a save at all.
pub proof fn lemma_decode_rejects_foreign_magic(bytes: Seq<u8>)
    requires
        bytes.len() >= 9,
        bytes.subrange(0, 9) != spec_magic(),
    ensures
        spec_parse(bytes) == Err::<Seq<ActivityModel>, _>(DecodeError::FormatError),
{
}

/// A stream with the right magic header but another format version is
/// rejected for its version, distinctly from a foreign-magic rejection.
pub proof fn lemma_decode_rejects_other_version(bytes: Seq<u8>)
    requires
        bytes.len() >= 11,
        bytes.subrange(0, 9) == spec_magic(),
        spec_u16_from_le_bytes(bytes.subrange(9, 11)) != SAVE_VERSION,
    ensures
        spec_parse(bytes) == Err::<Seq<ActivityModel>, _>(DecodeError::VersionError),
{
}

/// Dates cut off before their full encoding are rejected as truncated.
proof fn lemma_parse_dates_truncated(bytes: Seq<u8>, pos: int, dates: Seq<Date>)
    requires
        forall|i: int| 0 <= i < dates.len() ==> (#[trigger] dates[i]).wf(),
        0 <= pos <= bytes.len(),
        bytes.len() < pos + 4 * dates.len(),
        bytes.subrange(pos, bytes.len() as int) == spec_encode_dates(dates).take(
            bytes.len() - pos,
        ),
    ensures
        spec_parse_dates(bytes, pos, dates.len()) == Err::<(Seq<Date>, int), _>(
            DecodeError::TruncatedError,
        ),
    decreases dates.len(),
{
    lemma_auto_spec_u16_to_from_le_bytes();
    lemma_encode_dates_len(dates);
    let enc = spec_encode_dates(dates);
    let avail = bytes.len() - pos;
    let window = enc.take(avail);
    assert(window.len() == avail);
    if bytes.len() < pos + 4 {
    } else {
        let d0 = dates[0];
        let rest = dates.drop_first();
        lemma_encode_dates_len(rest);
        lemma_window_slice(bytes, pos, window, 0, 4);
        assert(window.subrange(0, 4) =~= spec_encode_date(d0));
        lemma_parse_date_at(bytes, pos, d0);
        lemma_window_slice(bytes, pos, window, 4, avail);
        assert(window.subrange(4, avail) =~= spec_encode_dates(rest).take(avail - 4));
        lemma_parse_dates_truncated(bytes, pos + 4, rest);
    }
}

/// An activity cut off before its full encoding is rejected as truncated.
proof fn lemma_parse_activity_truncated(bytes: Seq<u8>, pos: int, a: ActivityModel)
    requires
        a.wf(),
        spec_activity_encodable(a),
        0 <= pos <= bytes.len(),
        bytes.len() < pos + spec_encode_activity(a).len(),
        bytes.subrange(pos, bytes.len() as int) == spec_encode_activity(a).take(
            bytes.len() - pos,
        ),
    ensures
        spec_parse_activity(bytes, pos) == Err::<(ActivityModel, int), _>(
            DecodeError::TruncatedError,
        ),
{
    lemma_auto_spec_u16_to_from_le_bytes();
    lemma_auto_spec_u32_to_from_le_bytes();
    lemma_encode_activity_len(a);
    lemma_encode_dates_len(a.dates);
    let enc = spec_encode_activity(a);
    let nb = encode_utf8(a.name);
    let nl = nb.len() as int;
    let avail = bytes.len() - pos;
    let window = enc.take(avail);
    assert(window.len() == avail);
    if pos + 1 > bytes.len() {
    } else {
        lemma_window_byte(bytes, pos, window, 0);
        assert(window[0] == nl as u8);
        if pos + 1 + nl > bytes.len() {
        } else {
            lemma_window_slice(bytes, pos, window, 1, 1 + nl);
            assert(window.subrange(1, 1 + nl) =~= nb);
            assert(valid_utf8(nb)) by {
                vstd::utf8::encode_utf8_valid_utf8(a.name);
            }
            if pos + 1 + nl + 4 > bytes.len() {
            } else {
                lemma_window_slice(bytes, pos, window, 1 + nl, 1 + nl + 4);
                assert(window.subrange(1 + nl, 1 + nl + 4) =~= spec_encode_date(a.starting_date));
                lemma_parse_date_at(bytes, pos + 1 + nl, a.starting_date);
                let p = pos + 1 + nl + 4;
                if p + 4 > bytes.len() {
                } else {
                    lemma_window_slice(bytes, pos, window, 1 + nl + 4, 1 + nl + 8);
                    assert(window.subrange(1 + nl + 4, 1 + nl + 8) =~= spec_u32_to_le_bytes(
                        a.dates.len() as u32,
                    ));
                    assert(spec_u32_from_le_bytes(bytes.subrange(p, p + 4)) == a.dates.len());
                    lemma_window_slice(bytes, pos, window, 1 + nl + 8, avail);
                    assert(window.subrange(1 + nl + 8, avail) =~= spec_encode_dates(a.dates).take(
                        avail - (1 + nl + 8),
                    ));
                    lemma_parse_dates_truncated(bytes, p + 4, a.dates);
                }
            }
        }
    }
}

/// Activities cut off before their full encoding are rejected as truncated.
proof fn lemma_parse_activities_truncated(bytes: Seq<u8>, pos: int, activities: Seq<ActivityModel>)
    requires
        forall|i: int| 0 <= i < activities.len() ==> (#[trigger] activities[i]).wf(),
        forall|i: int|
            0 <= i < activities.len() ==> spec_activity_encodable(#[trigger] activities[i]),
        0 <= pos <= bytes.len(),
        bytes.len() < pos + spec_encode_activities(activities).len(),
        bytes.subrange(pos, bytes.len() as int) == spec_encode_activities(activities).take(
            bytes.len() - pos,
        ),
    ensures
        spec_parse_activities(bytes, pos, activities.len()) == Err::<(Seq<ActivityModel>, int), _>(
            DecodeError::TruncatedError,
        ),
    decreases activities.len(),
{
    let enc = spec_encode_activities(activities);
    let avail = bytes.len() - pos;
    let window = enc.take(avail);
    assert(window.len() == avail);
    let a0 = activities[0];
    let rest = activities.drop_first();
    let enc0 = spec_encode_activity(a0);
    if bytes.len() < pos + enc0.len() {
        lemma_window_slice(bytes, pos, window, 0, avail);
        assert(bytes.subrange(pos + 0, pos + avail) == bytes.subrange(pos, bytes.len() as int));
        assert(window.subrange(0, avail) =~= enc0.take(avail));
        lemma_parse_activity_truncated(bytes, pos, a0);
    } else {
        lemma_window_slice(bytes, pos, window, 0, enc0.len() as int);
        assert(window.subrange(0, enc0.len() as int) =~= enc0);
        lemma_parse_activity_at(bytes, pos, a0);
        lemma_window_slice(bytes, pos, window, enc0.len() as int, avail);
        assert(window.subrange(enc0.len() as int, avail) =~= spec_encode_activities(rest).take(
            avail - enc0.len(),
        ));
        lemma_parse_activities_truncated(bytes, pos + enc0.len(), rest);
    }
}

/// A written save cut off anywhere before its end is rejected as truncated,
/// never read back as a shorter save.
pub proof fn lemma_decode_rejects_truncation(activities: Seq<ActivityModel>, cut: int)
    requires
        spec_encodable(activities),
        forall|i: int| 0 <= i < activities.len() ==> (#[trigger] activities[i]).wf(),
        0 <= cut < spec_encode(activities).len(),
    ensures
        spec_parse(spec_encode(activities).take(cut)) == Err::<Seq<ActivityModel>, _>(
            DecodeError::TruncatedError,
        ),
{
    lemma_auto_spec_u16_to_from_le_bytes();
    lemma_auto_spec_u32_to_from_le_bytes();
    let full = spec_encode(activities);
    let bytes = full.take(cut);
    let enc = spec_encode_activities(activities);
    assert(full.len() == 15 + enc.len());
    if cut < 9 {
    } else {
        assert(bytes.subrange(0, 9) =~= spec_magic());
        if cut < 11 {
        } else {
            assert(bytes.subrange(9, 11) =~= spec_u16_to_le_bytes(SAVE_VERSION));
            if cut < 15 {
            } else {
                assert(bytes.subrange(11, 15) =~= spec_u32_to_le_bytes(activities.len() as u32));
                assert(bytes.subrange(15, bytes.len() as int) =~= enc.take(bytes.len() - 15));
                lemma_parse_activities_truncated(bytes, 15, activities);
            }
        }
    }
}

/// Encode the data when the format can carry it, and say when it cannot:
/// `None` exactly when some activity name exceeds 255 bytes of UTF-8 or an
/// activity count or date count exceeds the four-byte count field.
pub fn try_encode(data: &UserData) -> (r: Option<Vec<u8>>)
    ensures
        match r {
            Some(v) => spec_encodable(data@) && v@ == spec_encode(data@),
            None => !spec_encodable(data@),
        },
{
    if data.activities.len() > u32::MAX as usize {
        return None;
    }
    let mut i: usize = 0;
    while i < data.activities.len()
        invariant
            i <= data@.len(),
            data@.len() <= u32::MAX,
            forall|j: int| 0 <= j < i ==> spec_activity_encodable(#[trigger] data@[j]),
        decreases data@.len() - i,
    {
        proof {
            assert(data@[i as int] == data.activities@[i as int]@);
        }
        let name_bytes: &[u8] = data.activities[i].name.as_str().as_bytes();
        if name_bytes.len() > 255 {
            return None;
        }
        if data.activities[i].dates.len() > u32::MAX as usize {
            return None;
        }
        i += 1;
    }
    Some(encode(data))
}

} // verus!
