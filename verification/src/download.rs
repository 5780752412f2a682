//! Range-probing and segmented-download planning.
//!
//! The downloader splits a resource of known length into contiguous byte
//! segments, one concurrent fetch per segment, all writing into one shared
//! file. This module holds every decision that the orchestration makes:
//! how a HEAD response is interpreted, how the byte range is partitioned,
//! which `Range` header each fetch sends, at which offset each arriving
//! chunk is written, and how the per-segment outcomes are combined.
use vstd::prelude::*;
use vstd::arithmetic::div_mod::{
    lemma_div_is_ordered, lemma_div_multiples_vanish, lemma_fundamental_div_mod, lemma_mod_bound,
};
use vstd::arithmetic::mul::{
    lemma_mul_inequality, lemma_mul_is_commutative, lemma_mul_is_distributive_add,
};
use vstd::string::StringExecFns;

verus! {

/// The error kinds of the downloader.
#[derive(Debug, Clone, Copy, PartialEq, Eq, Structural)]
pub enum DownloadError {
    /// A HEAD or GET response had a non-success status, or the transport
    /// failed outright.
    RequestError,
    /// The probe succeeded but no usable `Content-Length` was present.
    MissingLengthError,
    /// Reading the network stream or writing the shared file failed within
    /// one segment.
    SegmentIoError,
    /// One or more segment fetches failed; reported for the whole download.
    DownloadFailedError,
}

/// What the range probe learned from the HEAD response.
#[derive(Debug, Clone, Copy, PartialEq, Eq, Structural)]
pub struct RangeCapability {
    /// True iff the server advertised `Accept-Ranges: bytes`.
    pub supports_ranges: bool,
    /// The resource's total length in bytes, from `Content-Length`.
    pub total_length: u64,
}

/// True iff `b` is an ASCII decimal digit.
pub open spec fn is_ascii_digit(b: u8) -> bool {
    48 <= b <= 57
}

/// True iff every byte of `s` is an ASCII decimal digit.
pub open spec fn all_ascii_digits(s: Seq<u8>) -> bool {
    forall|i: int| 0 <= i < s.len() ==> is_ascii_digit(#[trigger] s[i])
}

/// The number denoted by a sequence of ASCII digits, most significant first.
pub open spec fn digits_value(s: Seq<u8>) -> int
    decreases s.len(),
{
    if s.len() == 0 {
        0
    } else {
        digits_value(s.drop_last()) * 10 + (s.last() - 48)
    }
}

/// The value of a bare digit string, when it has at least one digit, only
/// digits, and fits in a `u64`.
pub open spec fn parse_digits_spec(digits: Seq<u8>) -> Option<u64> {
    if digits.len() >= 1 && all_ascii_digits(digits) && digits_value(digits) <= u64::MAX {
        Some(digits_value(digits) as u64)
    } else {
        None
    }
}

/// The value that `str::parse::<u64>` gives to `s`: an optional leading
/// `+`, then at least one ASCII digit, and the value must fit in a `u64`.
pub open spec fn parse_u64_spec(s: Seq<u8>) -> Option<u64> {
    if s.len() > 0 && s[0] == 43 {
        parse_digits_spec(s.drop_first())
    } else {
        parse_digits_spec(s)
    }
}

proof fn lemma_digits_value_nonneg(s: Seq<u8>)
    requires
        all_ascii_digits(s),
    ensures
        digits_value(s) >= 0,
    decreases s.len(),
{
    if s.len() > 0 {
        assert(all_ascii_digits(s.drop_last())) by {
            assert(forall|i: int|
                0 <= i < s.len() - 1 ==> is_ascii_digit(#[trigger] s.drop_last()[i]));
        }
        lemma_digits_value_nonneg(s.drop_last());
    }
}

/// Extending a digit string on the right cannot decrease its value.
proof fn lemma_digits_value_take_le(s: Seq<u8>, i: int)
    requires
        all_ascii_digits(s),
        0 <= i <= s.len(),
    ensures
        digits_value(s.take(i)) <= digits_value(s),
    decreases s.len() - i,
{
    if i < s.len() {
        lemma_digits_value_take_le(s, i + 1);
        assert(s.take(i + 1).drop_last() =~= s.take(i));
        assert(all_ascii_digits(s.take(i))) by {
            assert(forall|j: int| 0 <= j < i ==> is_ascii_digit(#[trigger] s.take(i)[j]));
        }
        lemma_digits_value_nonneg(s.take(i));
        assert(digits_value(s.take(i + 1)) == digits_value(s.take(i)) * 10 + (s.take(i + 1).last()
            - 48));
    } else {
        assert(s.take(i) =~= s);
    }
}

/// Parse an ASCII decimal `u64` exactly as `str::parse::<u64>` does.
pub fn parse_u64(s: &[u8]) -> (r: Option<u64>)
    ensures
        r == parse_u64_spec(s@),
{
    let start: usize = if s.len() > 0 && s[0] == 43 {
        1
    } else {
        0
    };
    let ghost digits: Seq<u8> = s@.skip(start as int);
    proof {
        if s@.len() > 0 && s@[0] == 43 {
            assert(s@.drop_first() =~= digits);
        } else {
            assert(s@.skip(0) =~= s@);
        }
        assert(parse_u64_spec(s@) == parse_digits_spec(digits));
    }
    if s.len() == start {
        assert(digits.len() == 0);
        return None;
    }
    let mut acc: u64 = 0;
    let mut i: usize = start;
    while i < s.len()
        invariant
            start <= i <= s@.len(),
            digits =~= s@.skip(start as int),
            parse_u64_spec(s@) == parse_digits_spec(digits),
            s@.len() > start,
            all_ascii_digits(digits.take(i - start)),
            acc == digits_value(digits.take(i - start)),
        decreases s@.len() - i,
    {
        let b = s[i];
        assert(digits[i - start] == b);
        if !(48 <= b && b <= 57) {
            assert(!is_ascii_digit(digits[i - start]));
            assert(!all_ascii_digits(digits));
            assert(parse_digits_spec(digits) is None);
            return None;
        }
        let d: u64 = (b - 48) as u64;
        assert(digits.take(i - start + 1).drop_last() =~= digits.take(i - start));
        assert(digits.take(i - start + 1).last() == b);
        let next = match acc.checked_mul(10) {
            Some(m) => m.checked_add(d),
            None => None,
        };
        match next {
            Some(v) => {
                acc = v;
            },
            None => {
                // The prefix already exceeds u64::MAX, so the whole digit
                // string does too and parsing must fail.
                proof {
                    assert(all_ascii_digits(digits.take(i - start + 1))) by {
                        assert(forall|j: int|
                            0 <= j < i - start + 1 ==> is_ascii_digit(
                                #[trigger] digits.take(i - start + 1)[j],
                            ));
                    }
                    assert(digits_value(digits.take(i - start + 1)) == acc * 10 + (b - 48));
                    assert(digits_value(digits.take(i - start + 1)) > u64::MAX);
                    if all_ascii_digits(digits) {
                        lemma_digits_value_take_le(digits, i - start + 1);
                        assert(digits_value(digits) > u64::MAX);
                    }
                    assert(parse_digits_spec(digits) is None);
                }
                return None;
            },
        }
        i = i + 1;
    }
    assert(digits.take(i - start) =~= digits);
    Some(acc)
}

/// Classification of an HTTP status code: the downloader accepts exactly
/// the 2xx family as success.
pub fn status_is_success(status: u16) -> (r: bool)
    ensures
        r == (200 <= status < 300),
{
    200 <= status && status < 300
}

/// True iff `v` is exactly the ASCII bytes of `"bytes"`, the only
/// `Accept-Ranges` value that the probe treats as range support.
pub open spec fn is_bytes_token(v: Seq<u8>) -> bool {
    v =~= seq![98u8, 121u8, 116u8, 101u8, 115u8]
}

/// The capability that a HEAD response with the given status,
/// `Accept-Ranges` value and `Content-Length` value yields.
pub open spec fn probe_outcome_spec(
    status: u16,
    accept_ranges: Option<Seq<u8>>,
    content_length: Option<Seq<u8>>,
) -> Result<RangeCapability, DownloadError> {
    if !(200 <= status < 300) {
        Err(DownloadError::RequestError)
    } else {
        let length = match content_length {
            Some(v) => parse_u64_spec(v),
            None => None,
        };
        match length {
            Some(n) => Ok(
                RangeCapability {
                    supports_ranges: accept_ranges is Some && is_bytes_token(
                        accept_ranges.unwrap(),
                    ),
                    total_length: n,
                },
            ),
            None => Err(DownloadError::MissingLengthError),
        }
    }
}

/// Interpret a HEAD response: the pure half of the range probe. The
/// transport hands in the status code and the raw bytes of the
/// `Accept-Ranges` and `Content-Length` header values, if present.
///
/// Fails with `RequestError` on a non-2xx status; with
/// `MissingLengthError` when `Content-Length` is absent or not a `u64`;
/// otherwise reports range support iff `Accept-Ranges` is exactly
/// `bytes`.
pub fn interpret_head_response(
    status: u16,
    accept_ranges: Option<&Vec<u8>>,
    content_length: Option<&Vec<u8>>,
) -> (r: Result<RangeCapability, DownloadError>)
    ensures
        r == probe_outcome_spec(
            status,
            match accept_ranges {
                Some(v) => Some(v@),
                None => None,
            },
            match content_length {
                Some(v) => Some(v@),
                None => None,
            },
        ),
{
    if !status_is_success(status) {
        return Err(DownloadError::RequestError);
    }
    let length: Option<u64> = match content_length {
        Some(v) => parse_u64(v.as_slice()),
        None => None,
    };
    match length {
        Some(n) => {
            let supports = match accept_ranges {
                Some(v) => {
                    if v.len() == 5 {
                        v[0] == 98 && v[1] == 121 && v[2] == 116 && v[3] == 101 && v[4] == 115
                    } else {
                        false
                    }
                },
                None => false,
            };
            proof {
                match accept_ranges {
                    Some(v) => {
                        if v@.len() == 5 {
                            assert(is_bytes_token(v@) <==> (v@[0] == 98 && v@[1] == 121 && v@[2]
                                == 116 && v@[3] == 101 && v@[4] == 115));
                        } else {
                            assert(!is_bytes_token(v@));
                        }
                    },
                    None => {},
                }
            }
            Ok(RangeCapability { supports_ranges: supports, total_length: n })
        },
        None => Err(DownloadError::MissingLengthError),
    }
}

/// Download configuration derived from the image URL: how many parallel
/// segment tasks to use, the URL itself, and where the file goes.
#[derive(Debug)]
pub struct XFConfig {
    /// Number of segment tasks the download is split into.
    pub task_num: u64,
    /// The resource URL, serialized.
    pub uri: String,
    /// Directory the image is saved under.
    pub path: String,
    /// File name derived from the URL path.
    pub file_name: String,
}

/// The file name that a URL path yields: the path with every `/`
/// removed and `.jpg` appended, cut after the last `-`; no name when the
/// path holds no `-`.
pub open spec fn config_file_name_spec(path: Seq<char>) -> Option<Seq<char>> {
    let cleaned = crate::text::remove_char(path, '/');
    match crate::text::rfind_char(cleaned, '-') {
        Some(i) => Some((cleaned + seq!['.', 'j', 'p', 'g']).skip(i + 1)),
        None => None,
    }
}

/// Build the download configuration from the URL's path characters and
/// its serialized form: four segment tasks, the `./img` directory, and
/// the file name cut from the cleaned path after its last `-`. Fails
/// exactly when the cleaned path holds no `-`.
pub fn config_from_parts(path_chars: &Vec<char>, uri: String) -> (r: Result<
    XFConfig,
    &'static str,
>)
    ensures
        r is Ok <==> config_file_name_spec(path_chars@) is Some,
        r is Ok ==> ({
            let c = r.unwrap();
            &&& c.task_num == 4
            &&& c.uri@ == uri@
            &&& c.path@ == "./img"@
            &&& c.file_name@ == config_file_name_spec(path_chars@).unwrap()
        }),
{
    let cleaned = crate::text::strip_char(path_chars, '/');
    match crate::text::rfind(&cleaned, '-') {
        None => Err("no name separator in image url path"),
        Some(idx) => {
            let ghost cleaned_chars = cleaned@;
            let mut full = cleaned;
            full.push('.');
            full.push('j');
            full.push('p');
            full.push('g');
            assert(full@ =~= cleaned_chars + seq!['.', 'j', 'p', 'g']);
            let n = full.len();
            assert(idx < n);
            let mut name_chars: Vec<char> = Vec::new();
            let mut j: usize = idx + 1;
            while j < full.len()
                invariant
                    idx + 1 <= j <= full@.len(),
                    name_chars@ == full@.subrange(idx + 1, j as int),
                decreases full@.len() - j,
            {
                name_chars.push(full[j]);
                proof {
                    assert(full@.subrange(idx + 1, j as int).push(full@[j as int]) =~= full@
                        .subrange(idx + 1, j + 1));
                }
                j = j + 1;
            }
            assert(name_chars@ =~= full@.skip(idx + 1));
            let file_name = crate::text::string_from_chars(&name_chars);
            Ok(
                XFConfig {
                    task_num: 4,
                    uri,
                    path: String::from_str("./img"),
                    file_name,
                },
            )
        },
    }
}

impl XFConfig {
    /// Derive the download configuration from the image URL. The URL's
    /// path and serialized form are read through the `url` crate; the
    /// derivation itself is `config_from_parts`, which carries the exact
    /// contract.
    pub fn read_config(url: url::Url) -> (r: Result<XFConfig, &'static str>)
        ensures
            r is Ok ==> r.unwrap().task_num == 4 && r.unwrap().path@ == "./img"@,
    {
        let path_chars = crate::outside::url_path_chars(&url);
        let uri = crate::outside::url_to_string(&url);
        config_from_parts(&path_chars, uri)
    }
}

/// The upper end of a segment's byte range.
#[derive(Debug, Clone, Copy, PartialEq, Eq, Structural)]
pub enum SegmentEnd {
    /// A concrete inclusive end offset.
    At(u64),
    /// Through the end of the resource; allowed only for the last segment
    /// of a ranged download.
    ToEnd,
}

/// One contiguous byte range of the resource, fetched and written
/// independently of its siblings.
#[derive(Debug, Clone, Copy, PartialEq, Eq, Structural)]
pub struct Segment {
    /// First byte offset of the range.
    pub start: u64,
    /// Upper end of the range.
    pub end: SegmentEnd,
    /// True iff the fetch for this segment sends a `Range` header.
    pub is_partial: bool,
}

/// The exclusive end offset that `seg` denotes within a resource of
/// `total` bytes.
pub open spec fn seg_end_ex(seg: Segment, total: u64) -> int {
    match seg.end {
        SegmentEnd::At(e) => e + 1,
        SegmentEnd::ToEnd => total as int,
    }
}

/// True when the plan splits the download into `count` ranged segments
/// rather than one full-range fetch.
pub open spec fn plan_is_split(cap: RangeCapability, count: u64) -> bool {
    cap.supports_ranges && count > 1
}

/// The segment with index `i` of a split plan: `per = total / count`
/// bytes each, the last one open-ended so that it absorbs the remainder
/// of the integer division.
pub open spec fn planned_segment(total: u64, count: u64, i: int) -> Segment {
    let per = total as int / count as int;
    if i == count - 1 {
        Segment { start: (per * i) as u64, end: SegmentEnd::ToEnd, is_partial: true }
    } else {
        Segment {
            start: (per * i) as u64,
            end: SegmentEnd::At((per * (i + 1) - 1) as u64),
            is_partial: true,
        }
    }
}

/// The complete download plan for a probed capability: `count` ranged
/// segments when ranges are supported and more than one segment is
/// asked for; otherwise a single non-partial fetch of the whole
/// resource.
pub open spec fn download_plan(cap: RangeCapability, count: u64) -> Seq<Segment> {
    if plan_is_split(cap, count) {
        Seq::new(count as nat, |i: int| planned_segment(cap.total_length, count, i))
    } else {
        seq![
            Segment {
                start: 0,
                end: SegmentEnd::At((cap.total_length - 1) as u64),
                is_partial: false,
            },
        ]
    }
}

/// The shape of every plan. Without range support (or with a single
/// segment requested) exactly one fetch runs, spanning the whole
/// resource, and it is not partial — no `Range` header is sent. In a
/// split plan every segment is partial, and the open-ended sentinel is
/// carried by exactly the final segment; it never appears otherwise.
pub proof fn lemma_plan_shape(cap: RangeCapability, count: u64)
    requires
        1 <= count,
        cap.total_length >= 1,
    ensures
        ({
            let plan = download_plan(cap, count);
            &&& !plan_is_split(cap, count) ==> plan =~= seq![
                Segment {
                    start: 0,
                    end: SegmentEnd::At((cap.total_length - 1) as u64),
                    is_partial: false,
                },
            ]
            &&& forall|i: int|
                0 <= i < plan.len() ==> (#[trigger] plan[i]).is_partial == plan_is_split(
                    cap,
                    count,
                )
            &&& forall|i: int|
                0 <= i < plan.len() ==> ((#[trigger] plan[i]).end is ToEnd <==> plan_is_split(
                    cap,
                    count,
                ) && i == plan.len() - 1)
        }),
{
}

/// Bounds on the planned boundaries of a split plan: every boundary
/// product stays within the resource, so the `u64` casts in
/// `planned_segment` are exact.
proof fn lemma_plan_bounds(total: u64, count: u64, i: int)
    requires
        1 <= count <= total,
        0 <= i < count,
    ensures
        ({
            let per = total as int / count as int;
            &&& 1 <= per
            &&& 0 <= per * i
            &&& per * (i + 1) <= total
            &&& per * i < per * (i + 1)
        }),
{
    let per = total as int / count as int;
    assert(1 <= per) by {
        lemma_div_is_ordered(count as int, total as int, count as int);
        lemma_div_multiples_vanish(1, count as int);
    }
    assert(per * count <= total) by {
        lemma_fundamental_div_mod(total as int, count as int);
        lemma_mul_is_commutative(count as int, per);
    }
    assert(per * (i + 1) <= per * count) by {
        lemma_mul_inequality(i + 1, count as int, per);
        lemma_mul_is_commutative(i + 1, per);
        lemma_mul_is_commutative(count as int, per);
    }
    assert(per * i >= 0) by {
        lemma_mul_inequality(0, i, per);
        lemma_mul_is_commutative(0, per);
        lemma_mul_is_commutative(i, per);
    }
    assert(per * i + per == per * (i + 1)) by {
        lemma_mul_is_distributive_add(per, i, 1);
    }
}

/// The planned segments tile the resource: the first starts at offset 0,
/// each later one starts exactly where its predecessor ends, every
/// segment is non-empty, and the last one ends exactly at `total`. So
/// their union is exactly `[0, total)`, with no overlap and no gap, and
/// the last segment absorbs the remainder of the integer division.
pub proof fn lemma_plan_partitions_resource(cap: RangeCapability, count: u64)
    requires
        1 <= count,
        cap.total_length >= 1,
        plan_is_split(cap, count) ==> cap.total_length >= count,
    ensures
        ({
            let plan = download_plan(cap, count);
            let total = cap.total_length;
            &&& plan.len() >= 1
            &&& plan[0].start == 0
            &&& seg_end_ex(plan[plan.len() - 1], total) == total
            &&& forall|i: int|
                0 <= i < plan.len() ==> (#[trigger] plan[i]).start < seg_end_ex(plan[i], total)
            &&& forall|i: int|
                0 <= i < plan.len() ==> seg_end_ex(#[trigger] plan[i], total) <= total
            &&& forall|i: int|
                0 <= i < plan.len() - 1 ==> seg_end_ex(#[trigger] plan[i], total) == plan[i
                    + 1].start
        }),
{
    let plan = download_plan(cap, count);
    let total = cap.total_length;
    if plan_is_split(cap, count) {
        let per = total as int / count as int;
        assert forall|i: int| 0 <= i < plan.len() implies (#[trigger] plan[i]).start < seg_end_ex(
            plan[i],
            total,
        ) && seg_end_ex(plan[i], total) <= total by {
            lemma_plan_bounds(total, count, i);
            if i == count - 1 {
                assert(plan[i].start == per * i);
                assert(per * i < per * (i + 1) <= total);
            }
        }
        assert forall|i: int| 0 <= i < plan.len() - 1 implies seg_end_ex(
            #[trigger] plan[i],
            total,
        ) == plan[i + 1].start by {
            lemma_plan_bounds(total, count, i);
            lemma_plan_bounds(total, count, i + 1);
        }
        lemma_plan_bounds(total, count, count - 1);
        assert(plan[0].start == per * 0);
    } else {
        assert(plan.len() == 1);
    }
}

/// Every byte offset of the resource lies in exactly one planned
/// segment: no gap (each `k` is covered) and no overlap (distinct
/// segments' ranges are disjoint).
#[verifier::rlimit(50)]
pub proof fn lemma_plan_covers_each_offset_once(cap: RangeCapability, count: u64, k: int)
    requires
        1 <= count,
        cap.total_length >= 1,
        plan_is_split(cap, count) ==> cap.total_length >= count,
        0 <= k < cap.total_length,
    ensures
        ({
            let plan = download_plan(cap, count);
            let total = cap.total_length;
            exists|i: int|
                0 <= i < plan.len() && (#[trigger] plan[i]).start <= k < seg_end_ex(plan[i], total)
        }),
        ({
            let plan = download_plan(cap, count);
            let total = cap.total_length;
            forall|i: int, j: int|
                0 <= i < j < plan.len() ==> seg_end_ex(#[trigger] plan[i], total) <= (
                #[trigger] plan[j]).start
        }),
{
    let plan = download_plan(cap, count);
    let total = cap.total_length;
    lemma_plan_partitions_resource(cap, count);
    if plan_is_split(cap, count) {
        let per = total as int / count as int;
        let q = k / per;
        lemma_plan_bounds(total, count, 0);
        let w = if q < count - 1 {
            q
        } else {
            count - 1
        };
        assert(0 <= w < count) by {
            lemma_div_is_ordered(0, k, per);
        }
        lemma_plan_bounds(total, count, w);
        assert(plan[w].start <= k < seg_end_ex(plan[w], total)) by {
            lemma_fundamental_div_mod(k, per);
            lemma_mod_bound(k, per);
            assert(k == per * q + k % per);
            if q < count - 1 {
                assert(per * q <= k < per * q + per);
                assert(per * q + per == per * (q + 1)) by {
                    lemma_mul_is_distributive_add(per, q, 1);
                }
            } else {
                assert(per * w <= per * q) by {
                    lemma_mul_inequality(w, q, per);
                    lemma_mul_is_commutative(w, per);
                    lemma_mul_is_commutative(q, per);
                }
                assert(per * q <= k);
            }
        }
        assert forall|i: int, j: int| 0 <= i < j < plan.len() implies seg_end_ex(
            #[trigger] plan[i],
            total,
        ) <= (#[trigger] plan[j]).start by {
            lemma_plan_bounds(total, count, i);
            lemma_plan_bounds(total, count, j);
            assert(per * (i + 1) <= per * j) by {
                lemma_mul_inequality(i + 1, j, per);
                lemma_mul_is_commutative(i + 1, per);
                lemma_mul_is_commutative(j, per);
            }
        }
    }
}

/// Partition the byte range `[0, total_length)` into the segments that
/// the download will fetch concurrently.
///
/// When ranges are supported and more than one segment is requested,
/// each segment spans `total_length / segment_count` bytes and the last
/// one is open-ended, absorbing the remainder of the division; all are
/// marked partial. Otherwise a single non-partial segment spans the
/// whole resource.
pub fn compute_segments(cap: &RangeCapability, segment_count: u64) -> (segs: Vec<Segment>)
    requires
        segment_count >= 1,
        cap.total_length >= 1,
        plan_is_split(*cap, segment_count) ==> cap.total_length >= segment_count,
    ensures
        segs@ == download_plan(*cap, segment_count),
{
    let mut segs: Vec<Segment> = Vec::new();
    if cap.supports_ranges && segment_count > 1 {
        let per = cap.total_length / segment_count;
        let mut i: u64 = 0;
        while i < segment_count - 1
            invariant
                plan_is_split(*cap, segment_count),
                cap.total_length >= segment_count,
                per == cap.total_length as int / segment_count as int,
                0 <= i <= segment_count - 1,
                segs@.len() == i,
                forall|j: int|
                    0 <= j < i ==> segs@[j] == planned_segment(
                        cap.total_length,
                        segment_count,
                        j,
                    ),
            decreases segment_count - i,
        {
            proof {
                lemma_plan_bounds(cap.total_length, segment_count, i as int);
            }
            segs.push(
                Segment {
                    start: per * i,
                    end: SegmentEnd::At(per * (i + 1) - 1),
                    is_partial: true,
                },
            );
            i = i + 1;
        }
        proof {
            lemma_plan_bounds(cap.total_length, segment_count, segment_count - 1);
        }
        segs.push(
            Segment { start: per * (segment_count - 1), end: SegmentEnd::ToEnd, is_partial: true },
        );
        assert(segs@ =~= download_plan(*cap, segment_count));
    } else {
        segs.push(
            Segment {
                start: 0,
                end: SegmentEnd::At(cap.total_length - 1),
                is_partial: false,
            },
        );
        assert(segs@ =~= download_plan(*cap, segment_count));
    }
    segs
}

/// The file after every segment of `plan` has applied its chunk list,
/// segment by segment. By `lemma_disjoint_writes_commute` the order
/// chosen here is immaterial: the planned regions are disjoint.
pub open spec fn apply_segments(
    file: Map<int, u8>,
    plan: Seq<Segment>,
    total: u64,
    chunk_lists: Seq<Seq<Seq<u8>>>,
) -> Map<int, u8>
    decreases plan.len(),
{
    if plan.len() == 0 {
        file
    } else {
        apply_segments(
            crate::filemodel::apply_chunks(file, plan.first().start as int, chunk_lists.first()),
            plan.drop_first(),
            total,
            chunk_lists.drop_first(),
        )
    }
}

/// True iff `chunk_lists[i]` concatenates to exactly the bytes of the
/// resource over segment `i`'s range, for every segment of the plan:
/// what a successful download delivers, whatever chunk sizes the
/// transport chose.
pub open spec fn chunks_match_resource(
    resource: Seq<u8>,
    plan: Seq<Segment>,
    total: u64,
    chunk_lists: Seq<Seq<Seq<u8>>>,
) -> bool {
    &&& chunk_lists.len() == plan.len()
    &&& forall|i: int|
        0 <= i < plan.len() ==> (#[trigger] chunk_lists[i]).flatten() == resource.subrange(
            plan[i].start as int,
            seg_end_ex(plan[i], total),
        )
}

/// Induction step over the tail of a plan whose segments tile
/// `[pos, total)`: starting from a file that already holds the resource's
/// bytes on `[0, pos)` and nothing else, applying the remaining segments
/// yields the resource's bytes on all of `[0, total)`.
proof fn lemma_apply_segments_tail(
    file: Map<int, u8>,
    resource: Seq<u8>,
    total: u64,
    plan: Seq<Segment>,
    chunk_lists: Seq<Seq<Seq<u8>>>,
    pos: int,
)
    requires
        resource.len() == total,
        0 <= pos <= total,
        plan.len() == 0 ==> pos == total,
        plan.len() > 0 ==> plan[0].start == pos,
        plan.len() > 0 ==> seg_end_ex(plan[plan.len() - 1], total) == total,
        forall|i: int|
            0 <= i < plan.len() ==> (#[trigger] plan[i]).start < seg_end_ex(plan[i], total),
        forall|i: int| 0 <= i < plan.len() ==> seg_end_ex(#[trigger] plan[i], total) <= total,
        forall|i: int|
            0 <= i < plan.len() - 1 ==> seg_end_ex(#[trigger] plan[i], total) == plan[i + 1].start,
        chunks_match_resource(resource, plan, total, chunk_lists),
        file.dom() =~= crate::filemodel::range_set(0, pos),
        forall|k: int| 0 <= k < pos ==> file[k] == resource[k],
    ensures
        ({
            let f = apply_segments(file, plan, total, chunk_lists);
            &&& f.dom() =~= crate::filemodel::range_set(0, total as int)
            &&& forall|k: int| 0 <= k < total ==> f[k] == resource[k]
        }),
    decreases plan.len(),
{
    if plan.len() == 0 {
    } else {
        let seg = plan.first();
        let end = seg_end_ex(seg, total);
        crate::filemodel::lemma_segment_chunks_write_exact(
            file,
            resource,
            pos,
            end,
            chunk_lists.first(),
        );
        let f1 = crate::filemodel::apply_chunks(file, pos, chunk_lists.first());
        assert(f1.dom() =~= crate::filemodel::range_set(0, end));
        assert(forall|k: int| 0 <= k < end ==> f1[k] == resource[k]);
        let plan2 = plan.drop_first();
        let lists2 = chunk_lists.drop_first();
        assert(plan2.len() > 0 ==> plan2[0].start == end);
        assert(plan2.len() > 0 ==> seg_end_ex(plan2[plan2.len() - 1], total) == total) by {
            if plan2.len() > 0 {
                assert(plan2[plan2.len() - 1] == plan[plan.len() - 1]);
            }
        }
        assert(chunks_match_resource(resource, plan2, total, lists2)) by {
            assert(forall|i: int|
                0 <= i < plan2.len() ==> #[trigger] lists2[i] == chunk_lists[i + 1] && plan2[i]
                    == plan[i + 1]);
        }
        lemma_apply_segments_tail(f1, resource, total, plan2, lists2, end);
    }
}

/// Positional correctness of a completed download: when every segment's
/// chunks concatenate to the resource's bytes over that segment's range,
/// applying all segments to the freshly created (empty) file yields a
/// file whose domain is exactly `[0, total_length)` and whose byte at
/// every offset `k` is the resource's byte at `k` — whatever sizes the
/// chunks arrived in.
pub proof fn lemma_download_writes_whole_resource(
    resource: Seq<u8>,
    cap: RangeCapability,
    count: u64,
    chunk_lists: Seq<Seq<Seq<u8>>>,
)
    requires
        cap.total_length == resource.len(),
        1 <= count,
        cap.total_length >= 1,
        plan_is_split(cap, count) ==> cap.total_length >= count,
        chunks_match_resource(resource, download_plan(cap, count), cap.total_length, chunk_lists),
    ensures
        ({
            let f = apply_segments(
                Map::empty(),
                download_plan(cap, count),
                cap.total_length,
                chunk_lists,
            );
            &&& f.dom() =~= crate::filemodel::range_set(0, cap.total_length as int)
            &&& forall|k: int| 0 <= k < cap.total_length ==> f[k] == resource[k]
        }),
{
    lemma_plan_partitions_resource(cap, count);
    assert(Map::<int, u8>::empty().dom() =~= crate::filemodel::range_set(0, 0));
    lemma_apply_segments_tail(
        Map::empty(),
        resource,
        cap.total_length,
        download_plan(cap, count),
        chunk_lists,
        0,
    );
}

/// Determinism of a successful download, and with it idempotence:
/// two successful runs over the same resource — even with different
/// chunk arrival sizes — produce the same file, byte for byte. A re-run
/// starts again from the empty (truncated) file, so it reproduces the
/// first run's bytes exactly.
pub proof fn lemma_download_idempotent(
    resource: Seq<u8>,
    cap: RangeCapability,
    count: u64,
    chunk_lists_a: Seq<Seq<Seq<u8>>>,
    chunk_lists_b: Seq<Seq<Seq<u8>>>,
)
    requires
        cap.total_length == resource.len(),
        1 <= count,
        cap.total_length >= 1,
        plan_is_split(cap, count) ==> cap.total_length >= count,
        chunks_match_resource(resource, download_plan(cap, count), cap.total_length, chunk_lists_a),
        chunks_match_resource(resource, download_plan(cap, count), cap.total_length, chunk_lists_b),
    ensures
        apply_segments(Map::empty(), download_plan(cap, count), cap.total_length, chunk_lists_a)
            == apply_segments(
            Map::empty(),
            download_plan(cap, count),
            cap.total_length,
            chunk_lists_b,
        ),
{
    lemma_download_writes_whole_resource(resource, cap, count, chunk_lists_a);
    lemma_download_writes_whole_resource(resource, cap, count, chunk_lists_b);
    let fa = apply_segments(
        Map::empty(),
        download_plan(cap, count),
        cap.total_length,
        chunk_lists_a,
    );
    let fb = apply_segments(
        Map::empty(),
        download_plan(cap, count),
        cap.total_length,
        chunk_lists_b,
    );
    assert forall|k: int| fa.dom().contains(k) implies fa[k] == fb[k] by {}
    assert(fa =~= fb);
}

/// The write events that one segment fetch performs: each chunk at the
/// running offset, which starts at the segment's first byte and advances
/// by each chunk's length.
pub open spec fn segment_write_events(start: int, chunks: Seq<Seq<u8>>) -> Seq<(int, Seq<u8>)>
    decreases chunks.len(),
{
    if chunks.len() == 0 {
        Seq::empty()
    } else {
        seq![(start, chunks.first())] + segment_write_events(
            start + chunks.first().len(),
            chunks.drop_first(),
        )
    }
}

/// A segment fetch emits one write event per chunk.
pub proof fn lemma_segment_events_len(start: int, chunks: Seq<Seq<u8>>)
    ensures
        segment_write_events(start, chunks).len() == chunks.len(),
    decreases chunks.len(),
{
    if chunks.len() > 0 {
        lemma_segment_events_len(start + chunks.first().len(), chunks.drop_first());
    }
}

/// The `j`-th write event of a segment fetch: the `j`-th chunk, at the
/// segment's start advanced by the earlier chunks' total length — which
/// is exactly the offset `ChunkWriter::record_chunk` hands out for it.
pub proof fn lemma_segment_event_at(start: int, chunks: Seq<Seq<u8>>, j: int)
    requires
        0 <= j < chunks.len(),
    ensures
        segment_write_events(start, chunks)[j] == (
            start + chunks.take(j).flatten().len(),
            chunks[j],
        ),
    decreases j,
{
    let evs = segment_write_events(start, chunks);
    if j == 0 {
        assert(chunks.take(0) =~= Seq::<Seq<u8>>::empty());
        assert(evs[0] == (start, chunks.first()));
    } else {
        let c0 = chunks.first();
        let mid = start + c0.len();
        lemma_segment_event_at(mid, chunks.drop_first(), j - 1);
        lemma_segment_events_len(mid, chunks.drop_first());
        let rec = segment_write_events(mid, chunks.drop_first());
        assert(evs == seq![(start, c0)] + rec);
        assert(evs[j] == rec[j - 1]);
        assert(chunks.drop_first().take(j - 1) =~= chunks.take(j).drop_first());
        assert(chunks.take(j).first() == c0);
        assert(chunks.take(j).flatten() == c0 + chunks.take(j).drop_first().flatten());
        assert(chunks[j] == chunks.drop_first()[j - 1]);
    }
}

/// A successful segment fetch emits only write events that place the
/// resource's own bytes at their own offsets, and together those events
/// write exactly the segment's region.
pub proof fn lemma_segment_events_match(
    resource: Seq<u8>,
    start: int,
    end_ex: int,
    chunks: Seq<Seq<u8>>,
)
    requires
        0 <= start <= end_ex <= resource.len(),
        chunks.flatten() == resource.subrange(start, end_ex),
    ensures
        crate::filemodel::events_match_resource(resource, segment_write_events(start, chunks)),
        crate::filemodel::events_dom(segment_write_events(start, chunks))
            =~= crate::filemodel::range_set(start, end_ex),
    decreases chunks.len(),
{
    let evs = segment_write_events(start, chunks);
    if chunks.len() == 0 {
        assert(chunks.flatten().len() == 0);
        assert(end_ex == start);
        assert(crate::filemodel::events_dom(evs) =~= Set::<int>::empty());
        assert(crate::filemodel::range_set(start, end_ex) =~= Set::<int>::empty());
    } else {
        let c0 = chunks.first();
        let mid = start + c0.len();
        let rest = chunks.drop_first().flatten();
        assert(chunks.flatten() == c0 + rest);
        assert(mid <= end_ex) by {
            assert(chunks.flatten().len() == end_ex - start);
        }
        assert(c0 =~= resource.subrange(start, mid)) by {
            assert forall|j: int| 0 <= j < c0.len() implies c0[j] == resource[start + j] by {
                assert((c0 + rest)[j] == c0[j]);
                assert(resource.subrange(start, end_ex)[j] == resource[start + j]);
            }
        }
        assert(rest =~= resource.subrange(mid, end_ex)) by {
            assert forall|j: int| 0 <= j < rest.len() implies rest[j] == resource[mid + j] by {
                assert((c0 + rest)[c0.len() + j] == rest[j]);
                assert(resource.subrange(start, end_ex)[c0.len() + j] == resource[start + c0.len()
                    + j]);
            }
        }
        lemma_segment_events_match(resource, mid, end_ex, chunks.drop_first());
        let evs2 = segment_write_events(mid, chunks.drop_first());
        assert(evs.first() == (start, c0));
        assert(evs.drop_first() =~= evs2);
        assert forall|e: int| 0 <= e < evs.len() implies crate::filemodel::event_matches(
            resource,
            #[trigger] evs[e],
        ) by {
            if e == 0 {
                assert(evs[0] == (start, c0));
                assert(crate::filemodel::event_matches(resource, (start, c0)));
            } else {
                assert(evs[e] == evs2[e - 1]);
            }
        }
        assert(crate::filemodel::events_dom(evs) =~= crate::filemodel::range_set(start, end_ex))
            by {
            assert(crate::filemodel::events_dom(evs) == crate::filemodel::range_set(
                start,
                mid,
            ).union(crate::filemodel::events_dom(evs.drop_first())));
        }
    }
}

/// All write events of a whole download: every segment's events, here
/// listed segment by segment. A real run interleaves them; the
/// interleaving theorem below accepts them in every order.
pub open spec fn all_segment_events(
    plan: Seq<Segment>,
    total: u64,
    chunk_lists: Seq<Seq<Seq<u8>>>,
) -> Seq<(int, Seq<u8>)>
    decreases plan.len(),
{
    if plan.len() == 0 {
        Seq::empty()
    } else {
        segment_write_events(plan.first().start as int, chunk_lists.first())
            + all_segment_events(plan.drop_first(), total, chunk_lists.drop_first())
    }
}

/// Induction over the tail of the plan: the events of the remaining
/// segments all place resource bytes at their own offsets and jointly
/// write exactly `[pos, total)`.
proof fn lemma_plan_events_tail(
    resource: Seq<u8>,
    total: u64,
    plan: Seq<Segment>,
    chunk_lists: Seq<Seq<Seq<u8>>>,
    pos: int,
)
    requires
        resource.len() == total,
        0 <= pos <= total,
        plan.len() == 0 ==> pos == total,
        plan.len() > 0 ==> plan[0].start == pos,
        plan.len() > 0 ==> seg_end_ex(plan[plan.len() - 1], total) == total,
        forall|i: int|
            0 <= i < plan.len() ==> (#[trigger] plan[i]).start < seg_end_ex(plan[i], total),
        forall|i: int| 0 <= i < plan.len() ==> seg_end_ex(#[trigger] plan[i], total) <= total,
        forall|i: int|
            0 <= i < plan.len() - 1 ==> seg_end_ex(#[trigger] plan[i], total) == plan[i + 1].start,
        chunks_match_resource(resource, plan, total, chunk_lists),
    ensures
        crate::filemodel::events_match_resource(
            resource,
            all_segment_events(plan, total, chunk_lists),
        ),
        crate::filemodel::events_dom(all_segment_events(plan, total, chunk_lists))
            =~= crate::filemodel::range_set(pos, total as int),
    decreases plan.len(),
{
    let all = all_segment_events(plan, total, chunk_lists);
    if plan.len() == 0 {
        assert(crate::filemodel::events_dom(all) =~= Set::<int>::empty());
        assert(crate::filemodel::range_set(pos, total as int) =~= Set::<int>::empty());
    } else {
        let seg = plan.first();
        let end = seg_end_ex(seg, total);
        let head = segment_write_events(seg.start as int, chunk_lists.first());
        let plan2 = plan.drop_first();
        let lists2 = chunk_lists.drop_first();
        let tail = all_segment_events(plan2, total, lists2);
        lemma_segment_events_match(resource, pos, end, chunk_lists.first());
        assert(plan2.len() > 0 ==> seg_end_ex(plan2[plan2.len() - 1], total) == total) by {
            if plan2.len() > 0 {
                assert(plan2[plan2.len() - 1] == plan[plan.len() - 1]);
            }
        }
        assert(chunks_match_resource(resource, plan2, total, lists2)) by {
            assert(forall|i: int|
                0 <= i < plan2.len() ==> #[trigger] lists2[i] == chunk_lists[i + 1] && plan2[i]
                    == plan[i + 1]);
        }
        lemma_plan_events_tail(resource, total, plan2, lists2, end);
        assert(all == head + tail);
        assert forall|e: int| 0 <= e < all.len() implies crate::filemodel::event_matches(
            resource,
            #[trigger] all[e],
        ) by {
            if e < head.len() {
                assert(all[e] == head[e]);
            } else {
                assert(all[e] == tail[e - head.len()]);
            }
        }
        crate::filemodel::lemma_events_dom_concat(head, tail);
    }
}

/// The interleaving theorem: a download's chunk writes rebuild the
/// resource in every order the scheduler could run them. Any sequence of
/// write events that consists — as a multiset, so in whatever order — of
/// exactly the events the planned segments emit, applied to the freshly
/// created file, yields the resource byte for byte on `[0, total_length)`
/// and nothing else.
#[verifier::rlimit(100)]
pub proof fn lemma_any_interleaving_rebuilds_resource(
    resource: Seq<u8>,
    cap: RangeCapability,
    count: u64,
    chunk_lists: Seq<Seq<Seq<u8>>>,
    events: Seq<(int, Seq<u8>)>,
)
    requires
        cap.total_length == resource.len(),
        1 <= count,
        cap.total_length >= 1,
        plan_is_split(cap, count) ==> cap.total_length >= count,
        chunks_match_resource(resource, download_plan(cap, count), cap.total_length, chunk_lists),
        events.to_multiset() == all_segment_events(
            download_plan(cap, count),
            cap.total_length,
            chunk_lists,
        ).to_multiset(),
    ensures
        ({
            let f = crate::filemodel::apply_writes(Map::empty(), events);
            &&& f.dom() =~= crate::filemodel::range_set(0, cap.total_length as int)
            &&& forall|k: int| 0 <= k < cap.total_length ==> f[k] == resource[k]
        }),
{
    let total = cap.total_length;
    let plan = download_plan(cap, count);
    let all = all_segment_events(plan, total, chunk_lists);
    lemma_plan_partitions_resource(cap, count);
    lemma_plan_events_tail(resource, total, plan, chunk_lists, 0);
    broadcast use vstd::seq_lib::group_to_multiset_ensures;

    assert forall|e: int| 0 <= e < events.len() implies crate::filemodel::event_matches(
        resource,
        #[trigger] events[e],
    ) by {
        assert(events.contains(events[e]));
        assert(events.to_multiset().count(events[e]) > 0);
        assert(all.to_multiset().count(events[e]) > 0);
        assert(all.contains(events[e]));
        let i = choose|i: int| 0 <= i < all.len() && all[i] == events[e];
        assert(crate::filemodel::event_matches(resource, all[i]));
    }
    assert forall|k: int|
        crate::filemodel::events_dom(events).contains(k)
            == crate::filemodel::events_dom(all).contains(k) by {
        crate::filemodel::lemma_events_dom_iff(events, k);
        crate::filemodel::lemma_events_dom_iff(all, k);
        if crate::filemodel::events_dom(events).contains(k) {
            let e = choose|e: int|
                0 <= e < events.len() && (#[trigger] events[e]).0 <= k < events[e].0
                    + events[e].1.len();
            assert(events.contains(events[e]));
            assert(events.to_multiset().count(events[e]) > 0);
            assert(all.to_multiset().count(events[e]) > 0);
            assert(all.contains(events[e]));
            let i = choose|i: int| 0 <= i < all.len() && all[i] == events[e];
            assert(all[i].0 <= k < all[i].0 + all[i].1.len());
        }
        if crate::filemodel::events_dom(all).contains(k) {
            let e = choose|e: int|
                0 <= e < all.len() && (#[trigger] all[e]).0 <= k < all[e].0 + all[e].1.len();
            assert(all.contains(all[e]));
            assert(all.to_multiset().count(all[e]) > 0);
            assert(events.to_multiset().count(all[e]) > 0);
            assert(events.contains(all[e]));
            let i = choose|i: int| 0 <= i < events.len() && events[i] == all[e];
            assert(events[i].0 <= k < events[i].0 + events[i].1.len());
        }
    }
    assert(crate::filemodel::events_dom(events) =~= crate::filemodel::range_set(0, total as int));
    crate::filemodel::lemma_any_write_order_rebuilds_resource(Map::empty(), resource, events);
    let f = crate::filemodel::apply_writes(Map::empty(), events);
    assert(f.dom() =~= crate::filemodel::range_set(0, total as int)) by {
        assert(Map::<int, u8>::empty().dom().union(crate::filemodel::events_dom(events))
            =~= crate::filemodel::range_set(0, total as int));
    }
    assert forall|k: int| 0 <= k < total implies f[k] == resource[k] by {
        assert(f.dom().contains(k));
    }
}

/// The `Range` header value that the fetch for `seg` sends:
/// `bytes=<start>-<end>` for a bounded segment, `bytes=<start>-` for the
/// open-ended final one.
pub open spec fn range_header_spec(seg: Segment) -> Seq<char> {
    let prefix = seq!['b', 'y', 't', 'e', 's', '='] + crate::text::dec_digits(seg.start as nat)
        + seq!['-'];
    match seg.end {
        SegmentEnd::At(e) => prefix + crate::text::dec_digits(e as nat),
        SegmentEnd::ToEnd => prefix,
    }
}

/// The `Range` header for one segment fetch: `None` for a non-partial
/// fetch (no `Range` header is sent at all), otherwise the
/// `bytes=<start>-<end>` or open-ended `bytes=<start>-` value.
pub fn range_header_value(seg: &Segment) -> (r: Option<String>)
    ensures
        seg.is_partial <==> r is Some,
        seg.is_partial ==> r.unwrap()@ == range_header_spec(*seg),
{
    if !seg.is_partial {
        return None;
    }
    let mut s = String::new();
    s.append("bytes=");
    proof {
        reveal_strlit("bytes=");
        assert(Seq::<char>::empty() + "bytes="@ =~= seq!['b', 'y', 't', 'e', 's', '=']);
    }
    crate::text::append_decimal(&mut s, seg.start);
    s.append("-");
    proof {
        reveal_strlit("-");
        assert("-"@ =~= seq!['-']);
    }
    match seg.end {
        SegmentEnd::At(e) => {
            crate::text::append_decimal(&mut s, e);
            assert(s@ =~= range_header_spec(*seg));
        },
        SegmentEnd::ToEnd => {
            assert(s@ =~= range_header_spec(*seg));
        },
    }
    Some(s)
}

/// The running write position of one segment fetch. It starts at the
/// segment's first byte offset; every arriving chunk is written at the
/// current position, which then advances by the chunk's length. The
/// ghost `chunks` field records the chunk sequence handed in so far, so
/// a caller can connect the offsets it was told to write at with
/// `apply_chunks` over those chunks.
pub struct ChunkWriter {
    start: u64,
    offset: u64,
    chunks: Ghost<Seq<Seq<u8>>>,
}

impl ChunkWriter {
    /// The segment's first byte offset.
    pub closed spec fn spec_start(self) -> u64 {
        self.start
    }

    /// The offset at which the next chunk will be written.
    pub closed spec fn spec_offset(self) -> u64 {
        self.offset
    }

    /// The chunks recorded so far, in arrival order.
    pub closed spec fn spec_chunks(self) -> Seq<Seq<u8>> {
        self.chunks@
    }

    /// The writer's invariant: the running offset is the segment start
    /// advanced by every recorded chunk's length.
    pub open spec fn wf(self) -> bool {
        self.spec_offset() == self.spec_start() + self.spec_chunks().flatten().len()
    }

    /// A writer for the segment beginning at `start`, before any chunk
    /// has arrived.
    pub fn new(start: u64) -> (w: ChunkWriter)
        ensures
            w.wf(),
            w.spec_start() == start,
            w.spec_offset() == start,
            w.spec_chunks() == Seq::<Seq<u8>>::empty(),
    {
        let w = ChunkWriter { start, offset: start, chunks: Ghost(Seq::empty()) };
        proof {
            assert(w.spec_chunks().flatten() =~= Seq::<u8>::empty());
        }
        w
    }

    /// The current running position: where the next chunk will go.
    pub fn position(&self) -> (r: u64)
        ensures
            r == self.spec_offset(),
    {
        self.offset
    }

    /// Record one arriving chunk: returns the absolute file offset at
    /// which the caller must write it (the current running position) and
    /// advances the position by the chunk's length.
    pub fn record_chunk(&mut self, chunk: &[u8]) -> (off: u64)
        requires
            old(self).wf(),
            old(self).spec_offset() + chunk@.len() <= u64::MAX,
        ensures
            final(self).wf(),
            off == old(self).spec_offset(),
            final(self).spec_start() == old(self).spec_start(),
            final(self).spec_chunks() == old(self).spec_chunks().push(chunk@),
            final(self).spec_offset() == old(self).spec_offset() + chunk@.len(),
    {
        let off = self.offset;
        self.offset = self.offset + chunk.len() as u64;
        proof {
            self.chunks@ = self.chunks@.push(chunk@);
            lemma_flatten_push(old(self).spec_chunks(), chunk@);
        }
        off
    }
}

/// Flattening after a push appends the pushed sequence.
proof fn lemma_flatten_push(lists: Seq<Seq<u8>>, extra: Seq<u8>)
    ensures
        lists.push(extra).flatten() == lists.flatten() + extra,
    decreases lists.len(),
{
    if lists.len() == 0 {
        let one = lists.push(extra);
        assert(one.first() == extra);
        assert(one.drop_first() =~= Seq::<Seq<u8>>::empty());
        assert(one.drop_first().flatten() == Seq::<Seq<u8>>::empty().flatten());
        assert(one.flatten() == extra + Seq::<u8>::empty());
        assert(extra + Seq::<u8>::empty() =~= lists.flatten() + extra);
    } else {
        assert(lists.push(extra).drop_first() =~= lists.drop_first().push(extra));
        lemma_flatten_push(lists.drop_first(), extra);
        assert(lists.push(extra).flatten() == lists.first() + lists.drop_first().push(
            extra,
        ).flatten());
        assert(lists.first() + (lists.drop_first().flatten() + extra) =~= lists.flatten() + extra);
    }
}

/// True iff every segment task reported success.
pub open spec fn all_ok(results: Seq<Result<(), DownloadError>>) -> bool {
    forall|i: int| 0 <= i < results.len() ==> (#[trigger] results[i]) is Ok
}

/// Combine the settled results of all segment tasks into the download's
/// overall outcome. The whole download succeeds iff every segment did;
/// any failure yields `DownloadFailedError`, with the per-segment causes
/// deliberately discarded. On `Err` the caller must remove the
/// destination file before reporting failure, so that no partial file is
/// left behind.
pub fn collect_results(results: &Vec<Result<(), DownloadError>>) -> (r: Result<
    (),
    DownloadError,
>)
    ensures
        r is Ok <==> all_ok(results@),
        r is Err ==> r == Err::<(), DownloadError>(DownloadError::DownloadFailedError),
{
    let mut i: usize = 0;
    while i < results.len()
        invariant
            0 <= i <= results@.len(),
            forall|j: int| 0 <= j < i ==> (#[trigger] results@[j]) is Ok,
        decreases results@.len() - i,
    {
        if results[i].is_err() {
            return Err(DownloadError::DownloadFailedError);
        }
        i = i + 1;
    }
    Ok(())
}

} // verus!



