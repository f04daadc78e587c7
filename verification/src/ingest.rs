use vstd::prelude::*;

use crate::registry::{fresh_at, Registry};
use crate::track::{merge_entity, DecodedReport};

verus! {

/// Seconds without an update after which a record is evicted. The sweep runs
/// after every successful decode rather than on a timer, so during a silence
/// on the feed a stale record can outlive this threshold until the next
/// report arrives; that coupling of eviction to traffic is deliberate.
pub const EVICT_SECONDS: u64 = 120;

/// Whether a byte is the ASCII code of a hex digit, either case.
pub open spec fn is_hex_digit_byte(b: u8) -> bool {
    ||| 48 <= b <= 57
    ||| 97 <= b <= 102
    ||| 65 <= b <= 70
}

/// The value of a hex digit given as its ASCII code.
pub open spec fn hex_digit_val(b: u8) -> u8 {
    if 48 <= b <= 57 {
        (b - 48) as u8
    } else if 97 <= b <= 102 {
        (b - 87) as u8
    } else {
        (b - 55) as u8
    }
}

/// Whether a byte sequence is well-formed hex text: even length, hex digits
/// throughout.
pub open spec fn hex_ok(s: Seq<u8>) -> bool {
    &&& s.len() % 2 == 0
    &&& forall|i: int| 0 <= i < s.len() ==> is_hex_digit_byte(#[trigger] s[i])
}

/// The bytes hex text encodes: consecutive digit pairs, high digit first.
pub open spec fn hex_bytes(s: Seq<u8>) -> Seq<u8> {
    Seq::new((s.len() / 2) as nat, |i: int| (hex_digit_val(s[2 * i]) * 16 + hex_digit_val(s[2 * i + 1])) as u8)
}

/// Whether every byte of a sequence is zero; an all-zero payload is the
/// feed's idle marker, not a report.
pub open spec fn all_zero(s: Seq<u8>) -> bool {
    forall|i: int| 0 <= i < s.len() ==> #[trigger] s[i] == 0
}

/// A feed line with its framing removed: everything between the single
/// leading marker byte and the two trailing terminator characters.
pub open spec fn stripped(l: Seq<u8>) -> Seq<u8> {
    l.subrange(1, l.len() - 2)
}

/// What one feed line yields: the decoded payload bytes, or nothing when the
/// line is to be skipped — too short to hold any payload, not well-formed
/// hex after stripping, or the all-zero idle marker.
pub open spec fn payload_of(l: Seq<u8>) -> Option<Seq<u8>> {
    if l.len() <= 3 {
        None
    } else if !hex_ok(stripped(l)) {
        None
    } else if all_zero(hex_bytes(stripped(l))) {
        None
    } else {
        Some(hex_bytes(stripped(l)))
    }
}

/// Relies on hex::decode: it succeeds exactly on even-length input made of
/// hex digits, either case, and then pairs consecutive digits into bytes,
/// high digit first.
#[verifier::external_body]
fn hex_decode_bytes(data: &[u8]) -> (r: Option<Vec<u8>>)
    ensures
        r is Some <==> hex_ok(data@),
        r matches Some(v) ==> v@ == hex_bytes(data@),
{
    match hex::decode(data) {
        Ok(v) => Some(v),
        Err(_) => None,
    }
}

/// Recovers the payload of one feed line, or decides the line is skipped:
/// strips the one-byte leading marker and two-byte terminator, hex-decodes
/// what remains, and drops empty lines, malformed hex, and the all-zero idle
/// marker. Skipping is routine, never an error.
pub fn extract_payload(line: &[u8]) -> (r: Option<Vec<u8>>)
    ensures
        r is Some <==> payload_of(line@) is Some,
        r matches Some(v) ==> Some(v@) == payload_of(line@),
{
    let n = line.len();
    if n <= 3 {
        return None;
    }
    let payload: &[u8] = &line[1..n - 2];
    match hex_decode_bytes(payload) {
        None => None,
        Some(bytes) => {
            let m = bytes.len();
            let mut nonzero = false;
            let mut i: usize = 0;
            while i < m
                invariant
                    0 <= i <= m,
                    m == bytes@.len(),
                    nonzero <==> exists|j: int| 0 <= j < i && #[trigger] bytes@[j] != 0,
                decreases m - i,
            {
                if bytes[i] != 0 {
                    nonzero = true;
                }
                i = i + 1;
            }
            if nonzero {
                Some(bytes)
            } else {
                None
            }
        },
    }
}

/// One ingestion step after a successful decode: merges the report into the
/// registry, then runs the eviction sweep with the fixed staleness
/// threshold. Afterwards the registry holds exactly the merged mapping with
/// its stale records removed.
pub fn apply_report(reg: &mut Registry, r: &DecodedReport, now: u64)
    requires
        old(reg).wf(),
        r.wf(),
    ensures
        final(reg).wf(),
        final(reg).observer() == old(reg).observer(),
        final(reg).max_range() == old(reg).max_range(),
        ({
            let merged = old(reg)@.insert(
                r.icao.code,
                merge_entity(
                    Registry::entity_or_initial(old(reg)@, r.icao.code),
                    *r,
                    old(reg).observer(),
                    old(reg).max_range(),
                    now,
                ),
            );
            &&& forall|k: u32|
                #[trigger] final(reg)@.contains_key(k) <==> (merged.contains_key(k) && fresh_at(
                    merged[k],
                    now,
                    EVICT_SECONDS,
                ))
            &&& forall|k: u32|
                final(reg)@.contains_key(k) ==> #[trigger] final(reg)@[k] == merged[k]
        }),
{
    reg.upsert(r, now);
    reg.evict(now, EVICT_SECONDS);
}

} // verus!
