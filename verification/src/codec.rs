//! Binary artifact codec.
//!
//! The merged stop collection and its spatial index are persisted together
//! as one self-contained binary object, so that a consumer reconstructs
//! both structures positionally, without re-parsing: record `i` of the
//! collection corresponds to point `i` of the index.
//!
//! The layout is length-prefixed framing: a little-endian `u32` frame
//! count, then each frame as a little-endian `u32` byte length followed by
//! the bytes.  The first frame holds the record count `n`; the next `15 n`
//! frames hold the fields of the records, fifteen per record; the last `n`
//! frames hold the index points, eight bytes each.  Decoding checks the
//! layout and the record/point correspondence, and returns nothing on any
//! mismatch.

use vstd::prelude::*;

verus! {

/// Little-endian bytes of a `u32`.
pub open spec fn le4(v: u32) -> Seq<u8> {
    seq![
        (v & 0xff) as u8,
        ((v >> 8) & 0xff) as u8,
        ((v >> 16) & 0xff) as u8,
        ((v >> 24) & 0xff) as u8,
    ]
}

/// The `u32` read back from four little-endian bytes.
pub open spec fn u32_of_le(b0: u8, b1: u8, b2: u8, b3: u8) -> u32 {
    (b0 as u32) | ((b1 as u32) << 8) | ((b2 as u32) << 16) | ((b3 as u32) << 24)
}

/// The `u32` at position `p` of a byte string.
pub open spec fn take4(b: Seq<u8>, p: int) -> u32 {
    u32_of_le(b[p], b[p + 1], b[p + 2], b[p + 3])
}

proof fn lemma_le4_round(v: u32)
    ensures
        u32_of_le(le4(v)[0], le4(v)[1], le4(v)[2], le4(v)[3]) == v,
{
    let b0 = (v & 0xff) as u8;
    let b1 = ((v >> 8) & 0xff) as u8;
    let b2 = ((v >> 16) & 0xff) as u8;
    let b3 = ((v >> 24) & 0xff) as u8;
    assert((b0 as u32) | ((b1 as u32) << 8) | ((b2 as u32) << 16) | ((b3 as u32) << 24) == v)
        by (bit_vector)
        requires
            b0 == (v & 0xff) as u8,
            b1 == ((v >> 8) & 0xff) as u8,
            b2 == ((v >> 16) & 0xff) as u8,
            b3 == ((v >> 24) & 0xff) as u8,
    ;
}

/// One frame: byte length, then the bytes.
pub open spec fn enc_frame(f: Seq<u8>) -> Seq<u8> {
    le4(f.len() as u32) + f
}

/// The frames of a list, one after another.
pub open spec fn enc_list(fs: Seq<Seq<u8>>) -> Seq<u8>
    decreases fs.len(),
{
    if fs.len() == 0 {
        Seq::empty()
    } else {
        enc_frame(fs[0]) + enc_list(fs.drop_first())
    }
}

/// Every frame and the frame count fit their `u32` length prefixes.
pub open spec fn frames_wf(fs: Seq<Seq<u8>>) -> bool {
    &&& fs.len() <= 0xffffffff
    &&& forall|i: int| 0 <= i < fs.len() ==> (#[trigger] fs[i]).len() <= 0xffffffff
}

/// A whole framed message: frame count, then the frames.
pub open spec fn enc_frames(fs: Seq<Seq<u8>>) -> Seq<u8> {
    le4(fs.len() as u32) + enc_list(fs)
}

/// Decode `k` frames starting at `p`; returns the frames and the position
/// after them.
pub open spec fn dec_list(b: Seq<u8>, p: int, k: int) -> Option<(Seq<Seq<u8>>, int)>
    decreases k,
        when k >= 0
{
    if k == 0 {
        Some((Seq::empty(), p))
    } else if 0 <= p && p + 4 <= b.len() {
        let l = take4(b, p) as int;
        if p + 4 + l <= b.len() {
            match dec_list(b, p + 4 + l, k - 1) {
                Some((rest, q)) => Some((seq![b.subrange(p + 4, p + 4 + l)] + rest, q)),
                None => None,
            }
        } else {
            None
        }
    } else {
        None
    }
}

/// What `read_frames` returns: the framed list, provided the input is
/// exactly one whole framed message.
pub open spec fn spec_dec_frames(b: Seq<u8>) -> Option<Seq<Seq<u8>>> {
    if b.len() >= 4 {
        match dec_list(b, 4, take4(b, 0) as int) {
            Some((fs, q)) => if q == b.len() {
                Some(fs)
            } else {
                None
            },
            None => None,
        }
    } else {
        None
    }
}

proof fn lemma_enc_list_push(fs: Seq<Seq<u8>>, f: Seq<u8>)
    ensures
        enc_list(fs.push(f)) == enc_list(fs) + enc_frame(f),
    decreases fs.len(),
{
    if fs.len() == 0 {
        assert(fs.push(f)[0] == f);
        assert(fs.push(f).drop_first() =~= Seq::<Seq<u8>>::empty());
        assert(enc_list(Seq::<Seq<u8>>::empty()) =~= Seq::<u8>::empty());
        assert(enc_list(fs) =~= Seq::<u8>::empty());
        assert(enc_list(fs.push(f)) =~= enc_list(fs) + enc_frame(f));
    } else {
        assert(fs.push(f).drop_first() =~= fs.drop_first().push(f));
        lemma_enc_list_push(fs.drop_first(), f);
        assert(fs.push(f)[0] == fs[0]);
        assert(enc_list(fs.push(f)) =~= enc_list(fs) + enc_frame(f));
    }
}

proof fn lemma_dec_enc_list(b: Seq<u8>, p: int, fs: Seq<Seq<u8>>)
    requires
        0 <= p,
        p + enc_list(fs).len() <= b.len(),
        b.subrange(p, p + enc_list(fs).len()) == enc_list(fs),
        frames_wf(fs),
    ensures
        dec_list(b, p, fs.len() as int) == Some((fs, p + enc_list(fs).len())),
    decreases fs.len(),
{
    if fs.len() == 0 {
        assert(fs =~= Seq::<Seq<u8>>::empty());
    } else {
        let f0 = fs[0];
        let l0 = f0.len() as int;
        let tail = fs.drop_first();
        assert(enc_list(fs) == enc_frame(f0) + enc_list(tail));
        assert(enc_list(fs).len() == 4 + l0 + enc_list(tail).len());
        assert forall|i: int| 0 <= i < enc_list(fs).len() implies b[p + i] == enc_list(fs)[i] by {
            assert(b.subrange(p, p + enc_list(fs).len())[i] == b[p + i]);
        }
        lemma_le4_round(l0 as u32);
        assert(b[p] == le4(l0 as u32)[0] && b[p + 1] == le4(l0 as u32)[1] && b[p + 2] == le4(
            l0 as u32,
        )[2] && b[p + 3] == le4(l0 as u32)[3]) by {
            assert(enc_list(fs)[0] == le4(l0 as u32)[0]);
            assert(enc_list(fs)[1] == le4(l0 as u32)[1]);
            assert(enc_list(fs)[2] == le4(l0 as u32)[2]);
            assert(enc_list(fs)[3] == le4(l0 as u32)[3]);
        }
        assert(take4(b, p) == l0 as u32);
        assert(b.subrange(p + 4, p + 4 + l0) =~= f0) by {
            assert forall|i: int| 0 <= i < l0 implies b[p + 4 + i] == f0[i] by {
                assert(enc_list(fs)[4 + i] == (enc_frame(f0) + enc_list(tail))[4 + i]);
                assert(enc_frame(f0)[4 + i] == f0[i]);
            }
        }
        let p2 = p + 4 + l0;
        assert(b.subrange(p2, p2 + enc_list(tail).len()) =~= enc_list(tail)) by {
            assert forall|i: int| 0 <= i < enc_list(tail).len() implies b[p2 + i] == enc_list(
                tail,
            )[i] by {
                assert(enc_list(fs)[4 + l0 + i] == (enc_frame(f0) + enc_list(tail))[4 + l0 + i]);
            }
        }
        assert forall|i: int| 0 <= i < tail.len() implies (#[trigger] tail[i]).len()
            <= 0xffffffff by {
            assert(fs[i + 1].len() <= 0xffffffff);
        }
        lemma_dec_enc_list(b, p2, tail);
        assert(seq![f0] + tail =~= fs);
    }
}

/// Decoding a framed message returns exactly the frames it was made from.
pub proof fn lemma_frames_round_trip(fs: Seq<Seq<u8>>)
    requires
        frames_wf(fs),
    ensures
        spec_dec_frames(enc_frames(fs)) == Some(fs),
{
    let b = enc_frames(fs);
    lemma_le4_round(fs.len() as u32);
    assert(b[0] == le4(fs.len() as u32)[0] && b[1] == le4(fs.len() as u32)[1] && b[2] == le4(
        fs.len() as u32,
    )[2] && b[3] == le4(fs.len() as u32)[3]);
    assert(take4(b, 0) == fs.len() as u32);
    assert(b.subrange(4, 4 + enc_list(fs).len() as int) =~= enc_list(fs));
    lemma_dec_enc_list(b, 4, fs);
}

/// Append one length-prefixed `u32`.
fn push_le4(out: &mut Vec<u8>, v: u32)
    ensures
        final(out)@ == old(out)@ + le4(v),
{
    out.push((v & 0xff) as u8);
    out.push(((v >> 8) & 0xff) as u8);
    out.push(((v >> 16) & 0xff) as u8);
    out.push(((v >> 24) & 0xff) as u8);
    proof {
        assert(out@ =~= old(out)@ + le4(v));
    }
}

/// The `u32` at position `p`.
fn read_le4(b: &Vec<u8>, p: usize) -> (r: u32)
    requires
        p + 4 <= b@.len(),
    ensures
        r == take4(b@, p as int),
{
    let n = b.len();
    (b[p] as u32) | ((b[p + 1] as u32) << 8) | ((b[p + 2] as u32) << 16) | ((b[p + 3] as u32)
        << 24)
}

/// Append one frame: length prefix, then the bytes.
fn push_frame(out: &mut Vec<u8>, f: &Vec<u8>)
    requires
        f@.len() <= 0xffffffff,
    ensures
        final(out)@ == old(out)@ + enc_frame(f@),
{
    push_le4(out, f.len() as u32);
    let mut i: usize = 0;
    let n = f.len();
    while i < n
        invariant
            n == f@.len(),
            0 <= i <= n,
            out@ == old(out)@ + le4(f@.len() as u32) + f@.take(i as int),
        decreases n - i,
    {
        out.push(f[i]);
        proof {
            assert(out@ =~= old(out)@ + le4(f@.len() as u32) + f@.take(i as int + 1));
        }
        i += 1;
    }
    proof {
        assert(f@.take(n as int) =~= f@);
        assert(out@ =~= old(out)@ + enc_frame(f@));
    }
}

/// The byte views of a list of frames.
pub open spec fn frame_views(fs: Seq<Vec<u8>>) -> Seq<Seq<u8>> {
    fs.map_values(|v: Vec<u8>| v@)
}

/// Encode a list of frames as one framed message.
pub fn write_frames(fs: &Vec<Vec<u8>>) -> (r: Vec<u8>)
    requires
        frames_wf(frame_views(fs@)),
    ensures
        r@ == enc_frames(frame_views(fs@)),
{
    let mut out: Vec<u8> = Vec::new();
    push_le4(&mut out, fs.len() as u32);
    let n = fs.len();
    let mut i: usize = 0;
    while i < n
        invariant
            n == fs@.len(),
            0 <= i <= n,
            frames_wf(frame_views(fs@)),
            out@ == le4(fs@.len() as u32) + enc_list(frame_views(fs@.take(i as int))),
        decreases n - i,
    {
        proof {
            assert(frame_views(fs@)[i as int] == fs@[i as int]@);
            lemma_enc_list_push(frame_views(fs@.take(i as int)), fs@[i as int]@);
            assert(frame_views(fs@.take(i as int + 1)) =~= frame_views(fs@.take(i as int)).push(
                fs@[i as int]@,
            ));
        }
        push_frame(&mut out, &fs[i]);
        i += 1;
    }
    proof {
        assert(frame_views(fs@.take(n as int)) =~= frame_views(fs@));
    }
    out
}

/// Decode one framed message; returns the frames only when the input is
/// exactly one whole message.
pub fn read_frames(b: &Vec<u8>) -> (r: Option<Vec<Vec<u8>>>)
    ensures
        match r {
            Some(fs) => spec_dec_frames(b@) == Some(frame_views(fs@)),
            None => spec_dec_frames(b@) is None,
        },
{
    let total = b.len();
    if total < 4 {
        return None;
    }
    let k = read_le4(b, 0);
    let ghost kk = take4(b@, 0) as int;
    let mut fs: Vec<Vec<u8>> = Vec::new();
    let mut p: usize = 4;
    let mut done: u32 = 0;
    while done < k
        invariant
            total == b@.len(),
            4 <= p <= total,
            k == take4(b@, 0),
            kk == k as int,
            0 <= done <= k,
            fs@.len() == done,
            dec_list(b@, 4, kk) == match dec_list(b@, p as int, kk - done) {
                Some((rest, q)) => Some((frame_views(fs@) + rest, q)),
                None => None::<(Seq<Seq<u8>>, int)>,
            },
        decreases k - done,
    {
        if total - p < 4 {
            proof {
                assert(dec_list(b@, p as int, kk - done) is None);
            }
            return None;
        }
        let l = read_le4(b, p);
        let room: usize = total - p - 4;
        if (room as u64) < (l as u64) {
            proof {
                assert(dec_list(b@, p as int, kk - done) is None);
            }
            return None;
        }
        let l = l as usize;
        let mut f: Vec<u8> = Vec::new();
        let start = p + 4;
        let mut j: usize = 0;
        while j < l
            invariant
                start + l <= total,
                total == b@.len(),
                0 <= j <= l,
                f@ == b@.subrange(start as int, start as int + j as int),
            decreases l - j,
        {
            f.push(b[start + j]);
            proof {
                assert(f@ =~= b@.subrange(start as int, start as int + j as int + 1));
            }
            j += 1;
        }
        let ghost prev = fs@;
        fs.push(f);
        proof {
            assert(frame_views(fs@) =~= frame_views(prev).push(
                b@.subrange(start as int, start as int + l as int),
            ));
            assert(frame_views(prev) + (seq![
                b@.subrange(start as int, start as int + l as int),
            ] + dl_rest(b@, start as int + l as int, kk - done - 1)) =~= frame_views(fs@)
                + dl_rest(b@, start as int + l as int, kk - done - 1));
        }
        p = start + l;
        done += 1;
    }
    proof {
        assert(dec_list(b@, p as int, 0) == Some((Seq::<Seq<u8>>::empty(), p as int)));
        assert(frame_views(fs@) + Seq::<Seq<u8>>::empty() =~= frame_views(fs@));
    }
    if p == total {
        Some(fs)
    } else {
        None
    }
}

/// The frames part of a successful `dec_list` result.
pub open spec fn dl_rest(b: Seq<u8>, p: int, k: int) -> Seq<Seq<u8>> {
    match dec_list(b, p, k) {
        Some((rest, q)) => rest,
        None => Seq::empty(),
    }
}

} // verus!

verus! {

// ---------------------------------------------------------------------
// Record fields: each stop record is held as fifteen frames.
// ---------------------------------------------------------------------

/// An optional byte string: a tag byte, then the bytes when present.
pub open spec fn enc_opt(o: Option<Seq<u8>>) -> Seq<u8> {
    match o {
        None => seq![0u8],
        Some(v) => seq![1u8] + v,
    }
}

/// The `u32` bit pattern of a fixed-point coordinate.
pub open spec fn bits_i32(v: int) -> u32 {
    (v as i32) as u32
}

/// A fixed-point coordinate as four little-endian bytes.
pub open spec fn enc_coord(v: int) -> Seq<u8> {
    le4(bits_i32(v))
}

/// An optional small code: a tag byte, then four bytes when present.
pub open spec fn enc_wheel(o: Option<u32>) -> Seq<u8> {
    match o {
        None => seq![0u8],
        Some(c) => seq![1u8] + le4(c),
    }
}

use crate::stop::StopData;
use crate::stop::StopRecord;
use crate::stop::opt_bytes;
use crate::stop::stops_view;
use crate::index::Point;
use crate::index::SpatialIndex;
use crate::index::points_of;

/// The fifteen field frames of one record, in schema order.
pub open spec fn record_fields(d: StopData) -> Seq<Seq<u8>> {
    seq![
        d.stop_id,
        enc_opt(d.stop_code),
        d.stop_name,
        enc_opt(d.tts_stop_name),
        enc_opt(d.stop_desc),
        enc_coord(d.stop_lat),
        enc_coord(d.stop_lon),
        enc_opt(d.zone_id),
        enc_opt(d.stop_url),
        enc_opt(d.location_type),
        enc_opt(d.parent_station),
        enc_opt(d.stop_timezone),
        enc_wheel(d.wheelchair_boarding),
        enc_opt(d.level_id),
        enc_opt(d.platform_code),
    ]
}

/// Read back an optional byte string.
pub open spec fn dec_opt(f: Seq<u8>) -> Option<Option<Seq<u8>>> {
    if f.len() == 1 && f[0] == 0u8 {
        Some(None)
    } else if f.len() >= 1 && f[0] == 1u8 {
        Some(Some(f.drop_first()))
    } else {
        None
    }
}

/// Read back a fixed-point coordinate.
pub open spec fn dec_coord_field(f: Seq<u8>) -> Option<int> {
    if f.len() == 4 {
        Some((take4(f, 0) as i32) as int)
    } else {
        None
    }
}

/// Read back an optional small code.
pub open spec fn dec_wheel(f: Seq<u8>) -> Option<Option<u32>> {
    if f.len() == 1 && f[0] == 0u8 {
        Some(None)
    } else if f.len() == 5 && f[0] == 1u8 {
        Some(Some(take4(f, 1)))
    } else {
        None
    }
}

/// The record read back from fifteen field frames.
pub open spec fn spec_record_from_fields(fs: Seq<Seq<u8>>) -> Option<StopData> {
    if fs.len() == 15 {
        let stop_code = dec_opt(fs[1]);
        let tts_stop_name = dec_opt(fs[3]);
        let stop_desc = dec_opt(fs[4]);
        let stop_lat = dec_coord_field(fs[5]);
        let stop_lon = dec_coord_field(fs[6]);
        let zone_id = dec_opt(fs[7]);
        let stop_url = dec_opt(fs[8]);
        let location_type = dec_opt(fs[9]);
        let parent_station = dec_opt(fs[10]);
        let stop_timezone = dec_opt(fs[11]);
        let wheelchair_boarding = dec_wheel(fs[12]);
        let level_id = dec_opt(fs[13]);
        let platform_code = dec_opt(fs[14]);
        if stop_code is Some && tts_stop_name is Some && stop_desc is Some && stop_lat is Some
            && stop_lon is Some && zone_id is Some && stop_url is Some && location_type is Some
            && parent_station is Some && stop_timezone is Some && wheelchair_boarding is Some
            && level_id is Some && platform_code is Some {
            Some(
                StopData {
                    stop_id: fs[0],
                    stop_code: stop_code->0,
                    stop_name: fs[2],
                    tts_stop_name: tts_stop_name->0,
                    stop_desc: stop_desc->0,
                    stop_lat: stop_lat->0,
                    stop_lon: stop_lon->0,
                    zone_id: zone_id->0,
                    stop_url: stop_url->0,
                    location_type: location_type->0,
                    parent_station: parent_station->0,
                    stop_timezone: stop_timezone->0,
                    wheelchair_boarding: wheelchair_boarding->0,
                    level_id: level_id->0,
                    platform_code: platform_code->0,
                },
            )
        } else {
            None
        }
    } else {
        None
    }
}

/// The coordinates of the record fit the fixed-point width.
pub open spec fn stop_data_wf(d: StopData) -> bool {
    &&& -0x80000000 <= d.stop_lat <= 0x7fffffff
    &&& -0x80000000 <= d.stop_lon <= 0x7fffffff
}

/// An optional field short enough for its length prefix.
pub open spec fn opt_len_ok(o: Option<Seq<u8>>) -> bool {
    match o {
        None => true,
        Some(v) => v.len() + 1 <= 0xffffffff,
    }
}

/// Every field of the record fits its frame's length prefix.
pub open spec fn record_encodable(d: StopData) -> bool {
    &&& d.stop_id.len() <= 0xffffffff
    &&& d.stop_name.len() <= 0xffffffff
    &&& opt_len_ok(d.stop_code)
    &&& opt_len_ok(d.tts_stop_name)
    &&& opt_len_ok(d.stop_desc)
    &&& opt_len_ok(d.zone_id)
    &&& opt_len_ok(d.stop_url)
    &&& opt_len_ok(d.location_type)
    &&& opt_len_ok(d.parent_station)
    &&& opt_len_ok(d.stop_timezone)
    &&& opt_len_ok(d.level_id)
    &&& opt_len_ok(d.platform_code)
}

proof fn lemma_opt_round(o: Option<Seq<u8>>)
    ensures
        dec_opt(enc_opt(o)) == Some(o),
{
    match o {
        None => {
            assert(enc_opt(o).len() == 1 && enc_opt(o)[0] == 0u8);
        },
        Some(v) => {
            assert(enc_opt(o)[0] == 1u8);
            assert(enc_opt(o).drop_first() =~= v);
        },
    }
}

proof fn lemma_coord_round(v: int)
    requires
        -0x80000000 <= v <= 0x7fffffff,
    ensures
        dec_coord_field(enc_coord(v)) == Some(v),
{
    lemma_le4_round(bits_i32(v));
    let f = enc_coord(v);
    assert(f[0] == le4(bits_i32(v))[0] && f[1] == le4(bits_i32(v))[1] && f[2] == le4(bits_i32(v))[2]
        && f[3] == le4(bits_i32(v))[3]);
    assert(take4(f, 0) == bits_i32(v));
    let w = v as i32;
    assert(((w as u32) as i32) == w) by (bit_vector);
}

proof fn lemma_wheel_round(o: Option<u32>)
    ensures
        dec_wheel(enc_wheel(o)) == Some(o),
{
    match o {
        None => {
            assert(enc_wheel(o).len() == 1 && enc_wheel(o)[0] == 0u8);
        },
        Some(c) => {
            let f = enc_wheel(o);
            lemma_le4_round(c);
            assert(f.len() == 5 && f[0] == 1u8);
            assert(f[1] == le4(c)[0] && f[2] == le4(c)[1] && f[3] == le4(c)[2] && f[4] == le4(
                c,
            )[3]);
            assert(take4(f, 1) == c);
        },
    }
}

/// Reading back the fifteen field frames of a record returns the record.
pub proof fn lemma_record_round_trip(d: StopData)
    requires
        stop_data_wf(d),
    ensures
        spec_record_from_fields(record_fields(d)) == Some(d),
{
    let fs = record_fields(d);
    assert(fs.len() == 15);
    lemma_opt_round(d.stop_code);
    lemma_opt_round(d.tts_stop_name);
    lemma_opt_round(d.stop_desc);
    lemma_opt_round(d.zone_id);
    lemma_opt_round(d.stop_url);
    lemma_opt_round(d.location_type);
    lemma_opt_round(d.parent_station);
    lemma_opt_round(d.stop_timezone);
    lemma_opt_round(d.level_id);
    lemma_opt_round(d.platform_code);
    lemma_coord_round(d.stop_lat);
    lemma_coord_round(d.stop_lon);
    lemma_wheel_round(d.wheelchair_boarding);
}

} // verus!

verus! {

// ---------------------------------------------------------------------
// The artifact: record count, record fields, index points.
// ---------------------------------------------------------------------

/// The stop collection and its spatial index, persisted as one object.
pub struct Artifact {
    pub stops: Vec<StopRecord>,
    pub index: SpatialIndex,
}

impl Artifact {
    /// The index belongs to the collection: point `i` is record `i`'s
    /// coordinate pair.
    pub open spec fn wf(&self) -> bool {
        self.index@ == points_of(self.stops@)
    }

    /// Pair a stop collection with the index built over it.
    pub fn assemble(stops: Vec<StopRecord>) -> (a: Artifact)
        ensures
            a.stops == stops,
            a.wf(),
    {
        let index = SpatialIndex::build(&stops);
        Artifact { stops, index }
    }
}

/// An index point as eight little-endian bytes.
pub open spec fn enc_point(pt: Point) -> Seq<u8> {
    le4(pt.lat as u32) + le4(pt.lon as u32)
}

/// Read back an index point.
pub open spec fn dec_point(f: Seq<u8>) -> Option<Point> {
    if f.len() == 8 {
        Some(Point { lat: take4(f, 0) as i32, lon: take4(f, 4) as i32 })
    } else {
        None
    }
}

/// The field frames of all records, fifteen per record, in order.
pub open spec fn all_record_fields(recs: Seq<StopData>) -> Seq<Seq<u8>>
    decreases recs.len(),
{
    if recs.len() == 0 {
        Seq::empty()
    } else {
        record_fields(recs[0]) + all_record_fields(recs.drop_first())
    }
}

/// The point frames, one per index point.
pub open spec fn point_frames(pts: Seq<Point>) -> Seq<Seq<u8>> {
    pts.map_values(|p: Point| enc_point(p))
}

/// The frame list of a whole artifact.
pub open spec fn artifact_frames(recs: Seq<StopData>, pts: Seq<Point>) -> Seq<Seq<u8>> {
    seq![le4(recs.len() as u32)] + all_record_fields(recs) + point_frames(pts)
}

/// What `encode_artifact` produces.
pub open spec fn enc_artifact(recs: Seq<StopData>, pts: Seq<Point>) -> Seq<u8> {
    enc_frames(artifact_frames(recs, pts))
}

/// The artifact fits the format's length prefixes.
pub open spec fn artifact_encodable(recs: Seq<StopData>, pts: Seq<Point>) -> bool {
    &&& pts.len() == recs.len()
    &&& 1 + 16 * recs.len() <= 0xffffffff
    &&& forall|j: int| 0 <= j < recs.len() ==> record_encodable(#[trigger] recs[j])
    &&& forall|j: int| 0 <= j < recs.len() ==> stop_data_wf(#[trigger] recs[j])
}

/// Point `i` of the index carries record `i`'s coordinates.
pub open spec fn points_match(recs: Seq<StopData>, pts: Seq<Point>) -> bool {
    &&& pts.len() == recs.len()
    &&& forall|i: int|
        0 <= i < recs.len() ==> (#[trigger] pts[i]).lat as int == recs[i].stop_lat && pts[i].lon
            as int == recs[i].stop_lon
}

/// Decode records `i..n` from their field frames, onto `acc`.
pub open spec fn dec_records(fields: Seq<Seq<u8>>, n: int, i: int, acc: Seq<StopData>) -> Option<
    Seq<StopData>,
>
    decreases n - i,
        when 0 <= i <= n && fields.len() == 15 * n
{
    if i == n {
        Some(acc)
    } else {
        match spec_record_from_fields(fields.subrange(15 * i, 15 * i + 15)) {
            None => None,
            Some(d) => dec_records(fields, n, i + 1, acc.push(d)),
        }
    }
}

/// Decode the points from their frames, onto `acc`.
pub open spec fn dec_points(fr: Seq<Seq<u8>>, i: int, acc: Seq<Point>) -> Option<Seq<Point>>
    decreases fr.len() - i,
        when 0 <= i <= fr.len()
{
    if i == fr.len() {
        Some(acc)
    } else {
        match dec_point(fr[i]) {
            None => None,
            Some(p) => dec_points(fr, i + 1, acc.push(p)),
        }
    }
}

/// What `decode_artifact` accepts: exactly one well-formed artifact whose
/// points carry the records' coordinates.
pub open spec fn spec_dec_artifact(b: Seq<u8>) -> Option<(Seq<StopData>, Seq<Point>)> {
    match spec_dec_frames(b) {
        None => None,
        Some(fs) => {
            if fs.len() >= 1 && fs[0].len() == 4 {
                let n = take4(fs[0], 0) as int;
                if fs.len() == 1 + 16 * n {
                    match dec_records(fs.subrange(1, 1 + 15 * n), n, 0, Seq::empty()) {
                        None => None,
                        Some(recs) => match dec_points(
                            fs.subrange(1 + 15 * n, 1 + 16 * n),
                            0,
                            Seq::empty(),
                        ) {
                            None => None,
                            Some(pts) => if points_match(recs, pts) {
                                Some((recs, pts))
                            } else {
                                None
                            },
                        },
                    }
                } else {
                    None
                }
            } else {
                None
            }
        },
    }
}

proof fn lemma_arf(recs: Seq<StopData>)
    ensures
        all_record_fields(recs).len() == 15 * recs.len(),
        forall|j: int|
            0 <= j < recs.len() ==> all_record_fields(recs).subrange(15 * j, 15 * j + 15)
                == record_fields(#[trigger] recs[j]),
    decreases recs.len(),
{
    if recs.len() > 0 {
        lemma_arf(recs.drop_first());
        let hd = record_fields(recs[0]);
        let tl = all_record_fields(recs.drop_first());
        let all = all_record_fields(recs);
        assert forall|j: int| 0 <= j < recs.len() implies all.subrange(15 * j, 15 * j + 15)
            == record_fields(#[trigger] recs[j]) by {
            if j == 0 {
                assert(all.subrange(0, 15) =~= hd);
            } else {
                assert(recs.drop_first()[j - 1] == recs[j]);
                assert(all.subrange(15 * j, 15 * j + 15) =~= tl.subrange(
                    15 * (j - 1),
                    15 * (j - 1) + 15,
                ));
            }
        }
    }
}

proof fn lemma_arf_push(recs: Seq<StopData>, d: StopData)
    ensures
        all_record_fields(recs.push(d)) == all_record_fields(recs) + record_fields(d),
    decreases recs.len(),
{
    if recs.len() == 0 {
        assert(recs.push(d)[0] == d);
        assert(recs.push(d).drop_first() =~= Seq::<StopData>::empty());
        assert(all_record_fields(Seq::<StopData>::empty()) =~= Seq::<Seq<u8>>::empty());
        assert(all_record_fields(recs) =~= Seq::<Seq<u8>>::empty());
        assert(all_record_fields(recs.push(d)) =~= all_record_fields(recs) + record_fields(d));
    } else {
        assert(recs.push(d).drop_first() =~= recs.drop_first().push(d));
        lemma_arf_push(recs.drop_first(), d);
        assert(recs.push(d)[0] == recs[0]);
        assert(all_record_fields(recs.push(d)) =~= all_record_fields(recs) + record_fields(d));
    }
}

proof fn lemma_dec_records_enc(recs: Seq<StopData>, i: int, acc: Seq<StopData>)
    requires
        0 <= i <= recs.len(),
        forall|j: int| 0 <= j < recs.len() ==> stop_data_wf(#[trigger] recs[j]),
    ensures
        dec_records(all_record_fields(recs), recs.len() as int, i, acc) == Some(
            acc + recs.skip(i),
        ),
    decreases recs.len() - i,
{
    lemma_arf(recs);
    if i == recs.len() {
        assert(acc + recs.skip(i) =~= acc);
    } else {
        lemma_record_round_trip(recs[i]);
        lemma_dec_records_enc(recs, i + 1, acc.push(recs[i]));
        assert(acc.push(recs[i]) + recs.skip(i + 1) =~= acc + recs.skip(i));
    }
}

proof fn lemma_point_round(p: Point)
    ensures
        dec_point(enc_point(p)) == Some(p),
{
    let f = enc_point(p);
    lemma_le4_round(p.lat as u32);
    lemma_le4_round(p.lon as u32);
    assert(f[0] == le4(p.lat as u32)[0] && f[1] == le4(p.lat as u32)[1] && f[2] == le4(
        p.lat as u32,
    )[2] && f[3] == le4(p.lat as u32)[3]);
    assert(f[4] == le4(p.lon as u32)[0] && f[5] == le4(p.lon as u32)[1] && f[6] == le4(
        p.lon as u32,
    )[2] && f[7] == le4(p.lon as u32)[3]);
    assert(take4(f, 0) == p.lat as u32);
    assert(take4(f, 4) == p.lon as u32);
    let a = p.lat;
    let b = p.lon;
    assert(((a as u32) as i32) == a) by (bit_vector);
    assert(((b as u32) as i32) == b) by (bit_vector);
}

proof fn lemma_dec_points_enc(pts: Seq<Point>, i: int, acc: Seq<Point>)
    requires
        0 <= i <= pts.len(),
    ensures
        dec_points(point_frames(pts), i, acc) == Some(acc + pts.skip(i)),
    decreases pts.len() - i,
{
    if i == pts.len() {
        assert(acc + pts.skip(i) =~= acc);
    } else {
        lemma_point_round(pts[i]);
        lemma_dec_points_enc(pts, i + 1, acc.push(pts[i]));
        assert(acc.push(pts[i]) + pts.skip(i + 1) =~= acc + pts.skip(i));
    }
}

proof fn lemma_record_field_bounds(d: StopData)
    requires
        record_encodable(d),
    ensures
        forall|u: int| 0 <= u < 15 ==> (#[trigger] record_fields(d)[u]).len() <= 0xffffffff,
{
    let fs = record_fields(d);
    assert(fs[0].len() <= 0xffffffff);
    assert(fs[1].len() <= 0xffffffff);
    assert(fs[2].len() <= 0xffffffff);
    assert(fs[3].len() <= 0xffffffff);
    assert(fs[4].len() <= 0xffffffff);
    assert(fs[5].len() == 4);
    assert(fs[6].len() == 4);
    assert(fs[7].len() <= 0xffffffff);
    assert(fs[8].len() <= 0xffffffff);
    assert(fs[9].len() <= 0xffffffff);
    assert(fs[10].len() <= 0xffffffff);
    assert(fs[11].len() <= 0xffffffff);
    assert(fs[12].len() <= 5);
    assert(fs[13].len() <= 0xffffffff);
    assert(fs[14].len() <= 0xffffffff);
}

proof fn lemma_artifact_frames_wf(recs: Seq<StopData>, pts: Seq<Point>)
    requires
        artifact_encodable(recs, pts),
    ensures
        frames_wf(artifact_frames(recs, pts)),
        artifact_frames(recs, pts).len() == 1 + 16 * recs.len(),
{
    lemma_arf(recs);
    let fs = artifact_frames(recs, pts);
    assert forall|i: int| 0 <= i < fs.len() implies (#[trigger] fs[i]).len() <= 0xffffffff by {
        if i == 0 {
            assert(fs[0] == le4(recs.len() as u32));
        } else if i < 1 + 15 * recs.len() {
            let j = (i - 1) / 15;
            let u = (i - 1) % 15;
            assert(i - 1 == 15 * j + u);
            assert(0 <= j < recs.len());
            lemma_record_field_bounds(recs[j]);
            assert(all_record_fields(recs)[i - 1] == all_record_fields(recs).subrange(
                15 * j,
                15 * j + 15,
            )[u]);
            assert(fs[i] == all_record_fields(recs)[i - 1]);
        } else {
            assert(fs[i] == point_frames(pts)[i - 1 - 15 * recs.len()]);
            assert(point_frames(pts)[i - 1 - 15 * recs.len()] == enc_point(
                pts[i - 1 - 15 * recs.len()],
            ));
        }
    }
}

/// The record-fields region of the artifact frame list.
proof fn lemma_sub_records(recs: Seq<StopData>, pts: Seq<Point>)
    ensures
        artifact_frames(recs, pts).subrange(1, 1 + 15 * recs.len() as int)
            == all_record_fields(recs),
{
    let fs = artifact_frames(recs, pts);
    let n = recs.len() as int;
    lemma_arf(recs);
    assert(fs.subrange(1, 1 + 15 * n) =~= all_record_fields(recs)) by {
        assert forall|t: int| 0 <= t < 15 * n implies fs.subrange(1, 1 + 15 * n)[t]
            == all_record_fields(recs)[t] by {
            assert(fs.subrange(1, 1 + 15 * n)[t] == fs[1 + t]);
            assert(fs[1 + t] == all_record_fields(recs)[t]);
        }
    }
}

/// The point region of the artifact frame list.
proof fn lemma_sub_points(recs: Seq<StopData>, pts: Seq<Point>)
    requires
        pts.len() == recs.len(),
    ensures
        artifact_frames(recs, pts).subrange(
            1 + 15 * recs.len() as int,
            1 + 16 * recs.len() as int,
        ) == point_frames(pts),
{
    let fs = artifact_frames(recs, pts);
    let n = recs.len() as int;
    lemma_arf(recs);
    assert(fs.subrange(1 + 15 * n, 1 + 16 * n) =~= point_frames(pts)) by {
        assert forall|t: int| 0 <= t < n implies fs.subrange(1 + 15 * n, 1 + 16 * n)[t]
            == point_frames(pts)[t] by {
            assert(fs.subrange(1 + 15 * n, 1 + 16 * n)[t] == fs[1 + 15 * n + t]);
            assert(fs[1 + 15 * n + t] == point_frames(pts)[t]);
        }
    }
}

/// Assemble a decode result from its established parts.
proof fn lemma_artifact_decode_parts(
    b: Seq<u8>,
    fs: Seq<Seq<u8>>,
    recs: Seq<StopData>,
    pts: Seq<Point>,
)
    requires
        spec_dec_frames(b) == Some(fs),
        fs.len() == 1 + 16 * recs.len(),
        fs[0].len() == 4,
        take4(fs[0], 0) as int == recs.len() as int,
        dec_records(fs.subrange(1, 1 + 15 * recs.len() as int), recs.len() as int, 0, Seq::empty())
            == Some(recs),
        dec_points(fs.subrange(1 + 15 * recs.len() as int, 1 + 16 * recs.len() as int), 0,
            Seq::empty()) == Some(pts),
        points_match(recs, pts),
    ensures
        spec_dec_artifact(b) == Some((recs, pts)),
{
}

/// The records region decodes to the records.
proof fn lemma_records_region(recs: Seq<StopData>, pts: Seq<Point>)
    requires
        artifact_encodable(recs, pts),
    ensures
        dec_records(
            artifact_frames(recs, pts).subrange(1, 1 + 15 * recs.len() as int),
            recs.len() as int,
            0,
            Seq::empty(),
        ) == Some(recs),
{
    lemma_sub_records(recs, pts);
    lemma_arf(recs);
    lemma_dec_records_enc(recs, 0, Seq::empty());
    assert(Seq::<StopData>::empty() + recs.skip(0) =~= recs);
}

/// The point region decodes to the points.
proof fn lemma_points_region(recs: Seq<StopData>, pts: Seq<Point>)
    requires
        pts.len() == recs.len(),
    ensures
        dec_points(
            artifact_frames(recs, pts).subrange(
                1 + 15 * recs.len() as int,
                1 + 16 * recs.len() as int,
            ),
            0,
            Seq::empty(),
        ) == Some(pts),
{
    lemma_sub_points(recs, pts);
    lemma_dec_points_enc(pts, 0, Seq::empty());
    assert(Seq::<Point>::empty() + pts.skip(0) =~= pts);
}

/// The framed message of an artifact decodes back to its frame list.
proof fn lemma_artifact_message(recs: Seq<StopData>, pts: Seq<Point>)
    requires
        artifact_encodable(recs, pts),
    ensures
        spec_dec_frames(enc_artifact(recs, pts)) == Some(artifact_frames(recs, pts)),
        artifact_frames(recs, pts).len() == 1 + 16 * recs.len(),
{
    lemma_artifact_frames_wf(recs, pts);
    lemma_frames_round_trip(artifact_frames(recs, pts));
}

/// The first frame of an artifact holds the record count.
proof fn lemma_artifact_count_frame(recs: Seq<StopData>, pts: Seq<Point>)
    requires
        artifact_encodable(recs, pts),
    ensures
        artifact_frames(recs, pts)[0].len() == 4,
        take4(artifact_frames(recs, pts)[0], 0) as int == recs.len() as int,
{
    assert(artifact_frames(recs, pts)[0] == le4(recs.len() as u32));
    lemma_le4_round(recs.len() as u32);
}

/// Decoding an encoded artifact returns exactly the records and points it
/// was made from.
pub proof fn lemma_artifact_round_trip(recs: Seq<StopData>, pts: Seq<Point>)
    requires
        artifact_encodable(recs, pts),
        points_match(recs, pts),
    ensures
        spec_dec_artifact(enc_artifact(recs, pts)) == Some((recs, pts)),
{
    lemma_artifact_message(recs, pts);
    lemma_artifact_count_frame(recs, pts);
    lemma_records_region(recs, pts);
    lemma_points_region(recs, pts);
    lemma_artifact_decode_parts(
        enc_artifact(recs, pts),
        artifact_frames(recs, pts),
        recs,
        pts,
    );
}

} // verus!

verus! {

// ---------------------------------------------------------------------
// Executable encoding and decoding of artifacts.
// ---------------------------------------------------------------------

/// Append a copy of `src`.
fn copy_into(f: &mut Vec<u8>, src: &Vec<u8>)
    ensures
        final(f)@ == old(f)@ + src@,
{
    let n = src.len();
    let mut i: usize = 0;
    while i < n
        invariant
            n == src@.len(),
            0 <= i <= n,
            f@ == old(f)@ + src@.take(i as int),
        decreases n - i,
    {
        f.push(src[i]);
        proof {
            assert(f@ =~= old(f)@ + src@.take(i as int + 1));
        }
        i += 1;
    }
    proof {
        assert(src@.take(n as int) =~= src@);
    }
}

/// A fresh copy of `src`.
pub(crate) fn copy_bytes(src: &Vec<u8>) -> (r: Vec<u8>)
    ensures
        r@ == src@,
{
    let mut f: Vec<u8> = Vec::new();
    copy_into(&mut f, src);
    proof {
        assert(Seq::<u8>::empty() + src@ =~= src@);
    }
    f
}

/// Encode one optional field, unless it is too long for its prefix.
fn field_opt(o: &Option<Vec<u8>>) -> (r: Option<Vec<u8>>)
    ensures
        match r {
            Some(f) => f@ == enc_opt(opt_bytes(*o)) && opt_len_ok(opt_bytes(*o)),
            None => !opt_len_ok(opt_bytes(*o)),
        },
{
    match o {
        None => {
            let mut f: Vec<u8> = Vec::new();
            f.push(0);
            proof {
                assert(f@ =~= enc_opt(None));
            }
            Some(f)
        },
        Some(v) => {
            if (v.len() as u64) > 0xfffffffe {
                None
            } else {
                let mut f: Vec<u8> = Vec::new();
                f.push(1);
                copy_into(&mut f, v);
                proof {
                    assert(f@ =~= enc_opt(Some(v@)));
                }
                Some(f)
            }
        },
    }
}

/// Encode one fixed-point coordinate field.
fn field_coord(v: i32) -> (f: Vec<u8>)
    ensures
        f@ == enc_coord(v as int),
{
    let mut f: Vec<u8> = Vec::new();
    push_le4(&mut f, v as u32);
    proof {
        assert(f@ =~= enc_coord(v as int));
    }
    f
}

/// Encode the optional small code field.
fn field_wheel(o: &Option<u32>) -> (f: Vec<u8>)
    ensures
        f@ == enc_wheel(*o),
{
    match o {
        None => {
            let mut f: Vec<u8> = Vec::new();
            f.push(0);
            proof {
                assert(f@ =~= enc_wheel(None));
            }
            f
        },
        Some(c) => {
            let mut f: Vec<u8> = Vec::new();
            f.push(1);
            push_le4(&mut f, *c);
            proof {
                assert(f@ =~= enc_wheel(Some(*c)));
            }
            f
        },
    }
}

/// Append the fifteen field frames of one record, unless a field is too
/// long for its prefix.
fn push_record_fields(frames: &mut Vec<Vec<u8>>, r: &StopRecord) -> (ok: bool)
    ensures
        ok ==> frame_views(final(frames)@) == frame_views(old(frames)@) + record_fields(r@)
            && record_encodable(r@),
        !ok ==> !record_encodable(r@) && final(frames)@ == old(frames)@,
{
    if (r.stop_id.len() as u64) > 0xffffffff {
        return false;
    }
    if (r.stop_name.len() as u64) > 0xffffffff {
        return false;
    }
    let f0 = copy_bytes(&r.stop_id);
    let f1 = match field_opt(&r.stop_code) {
        Some(f) => f,
        None => {
            return false;
        },
    };
    let f2 = copy_bytes(&r.stop_name);
    let f3 = match field_opt(&r.tts_stop_name) {
        Some(f) => f,
        None => {
            return false;
        },
    };
    let f4 = match field_opt(&r.stop_desc) {
        Some(f) => f,
        None => {
            return false;
        },
    };
    let f5 = field_coord(r.stop_lat);
    let f6 = field_coord(r.stop_lon);
    let f7 = match field_opt(&r.zone_id) {
        Some(f) => f,
        None => {
            return false;
        },
    };
    let f8 = match field_opt(&r.stop_url) {
        Some(f) => f,
        None => {
            return false;
        },
    };
    let f9 = match field_opt(&r.location_type) {
        Some(f) => f,
        None => {
            return false;
        },
    };
    let f10 = match field_opt(&r.parent_station) {
        Some(f) => f,
        None => {
            return false;
        },
    };
    let f11 = match field_opt(&r.stop_timezone) {
        Some(f) => f,
        None => {
            return false;
        },
    };
    let f12 = field_wheel(&r.wheelchair_boarding);
    let f13 = match field_opt(&r.level_id) {
        Some(f) => f,
        None => {
            return false;
        },
    };
    let f14 = match field_opt(&r.platform_code) {
        Some(f) => f,
        None => {
            return false;
        },
    };
    frames.push(f0);
    frames.push(f1);
    frames.push(f2);
    frames.push(f3);
    frames.push(f4);
    frames.push(f5);
    frames.push(f6);
    frames.push(f7);
    frames.push(f8);
    frames.push(f9);
    frames.push(f10);
    frames.push(f11);
    frames.push(f12);
    frames.push(f13);
    frames.push(f14);
    proof {
        assert(frame_views(frames@) =~= frame_views(old(frames)@) + record_fields(r@));
    }
    true
}

} // verus!

verus! {

/// Serialize the artifact into one framed binary object.  Returns nothing
/// only when a field, a record count, or a frame does not fit the
/// format's `u32` length prefixes.
pub fn encode_artifact(a: &Artifact) -> (r: Option<Vec<u8>>)
    ensures
        match r {
            Some(b) => artifact_encodable(stops_view(a.stops@), a.index@) && b@ == enc_artifact(
                stops_view(a.stops@),
                a.index@,
            ),
            None => !artifact_encodable(stops_view(a.stops@), a.index@),
        },
{
    let ghost recs = stops_view(a.stops@);
    let n = a.stops.len();
    if a.index.points.len() != n {
        return None;
    }
    if (n as u64) > 0xfffffff {
        return None;
    }
    let mut frames: Vec<Vec<u8>> = Vec::new();
    let mut f0: Vec<u8> = Vec::new();
    push_le4(&mut f0, n as u32);
    frames.push(f0);
    proof {
        assert(frame_views(frames@) =~= seq![le4(n as u32)]);
        assert(all_record_fields(stops_view(a.stops@.take(0))) =~= Seq::<Seq<u8>>::empty());
        assert(frame_views(frames@) =~= seq![le4(n as u32)] + all_record_fields(
            stops_view(a.stops@.take(0)),
        ));
    }
    let mut i: usize = 0;
    while i < n
        invariant
            n == a.stops@.len(),
            a.index@.len() == n,
            1 + 16 * (n as int) <= 0xffffffff,
            0 <= i <= n,
            frame_views(frames@) == seq![le4(n as u32)] + all_record_fields(
                stops_view(a.stops@.take(i as int)),
            ),
            forall|j: int| 0 <= j < i ==> record_encodable(#[trigger] stops_view(a.stops@)[j]),
        decreases n - i,
    {
        let ok = push_record_fields(&mut frames, &a.stops[i]);
        if !ok {
            proof {
                assert(stops_view(a.stops@)[i as int] == a.stops@[i as int]@);
            }
            return None;
        }
        proof {
            lemma_arf_push(stops_view(a.stops@.take(i as int)), a.stops@[i as int]@);
            assert(stops_view(a.stops@.take(i as int + 1)) =~= stops_view(
                a.stops@.take(i as int),
            ).push(a.stops@[i as int]@));
            assert(frame_views(frames@) =~= seq![le4(n as u32)] + all_record_fields(
                stops_view(a.stops@.take(i as int + 1)),
            ));
            assert(stops_view(a.stops@)[i as int] == a.stops@[i as int]@);
        }
        i += 1;
    }
    proof {
        assert(a.stops@.take(n as int) =~= a.stops@);
        assert(point_frames(a.index@.take(0)) =~= Seq::<Seq<u8>>::empty());
        assert(frame_views(frames@) =~= seq![le4(n as u32)] + all_record_fields(recs)
            + point_frames(a.index@.take(0)));
    }
    let mut i: usize = 0;
    while i < n
        invariant
            n == a.stops@.len(),
            a.index@.len() == n,
            0 <= i <= n,
            frame_views(frames@) == seq![le4(n as u32)] + all_record_fields(recs) + point_frames(
                a.index@.take(i as int),
            ),
            recs == stops_view(a.stops@),
        decreases n - i,
    {
        let ghost prevf = frames@;
        let mut pf: Vec<u8> = Vec::new();
        let pt = a.index.points[i];
        push_le4(&mut pf, #[verifier::truncate] (pt.lat as u32));
        push_le4(&mut pf, #[verifier::truncate] (pt.lon as u32));
        proof {
            assert(pf@ =~= enc_point(a.index@[i as int]));
        }
        frames.push(pf);
        proof {
            lemma_arf(recs);
            assert(frames@ == prevf.push(pf));
            assert(frame_views(frames@) =~= frame_views(prevf).push(pf@));
            assert(point_frames(a.index@.take(i as int + 1)) =~= point_frames(
                a.index@.take(i as int),
            ).push(enc_point(a.index@[i as int])));
            assert((seq![le4(n as u32)] + all_record_fields(recs) + point_frames(
                a.index@.take(i as int),
            )).push(pf@) =~= seq![le4(n as u32)] + all_record_fields(recs) + point_frames(
                a.index@.take(i as int),
            ).push(pf@));
            assert(frame_views(frames@) =~= seq![le4(n as u32)] + all_record_fields(recs)
                + point_frames(a.index@.take(i as int + 1)));
        }
        i += 1;
    }
    proof {
        assert(a.index@.take(n as int) =~= a.index@);
        assert(frame_views(frames@) =~= artifact_frames(recs, a.index@));
        assert forall|j: int| 0 <= j < recs.len() implies stop_data_wf(#[trigger] recs[j]) by {
            assert(recs[j] == a.stops@[j]@);
        }
        assert(artifact_encodable(recs, a.index@));
        lemma_artifact_frames_wf(recs, a.index@);
    }
    let b = write_frames(&frames);
    Some(b)
}

} // verus!

verus! {

/// A copy of `src` without its first byte.
fn copy_tail(src: &Vec<u8>) -> (r: Vec<u8>)
    requires
        src@.len() >= 1,
    ensures
        r@ == src@.drop_first(),
{
    let n = src.len();
    let mut f: Vec<u8> = Vec::new();
    let mut i: usize = 1;
    while i < n
        invariant
            1 <= i <= n,
            n == src@.len(),
            f@ == src@.subrange(1, i as int),
        decreases n - i,
    {
        f.push(src[i]);
        proof {
            assert(f@ =~= src@.subrange(1, i as int + 1));
        }
        i += 1;
    }
    proof {
        assert(src@.subrange(1, n as int) =~= src@.drop_first());
    }
    f
}

/// Read back one optional field.
fn dec_opt_field(f: &Vec<u8>) -> (r: Option<Option<Vec<u8>>>)
    ensures
        match r {
            Some(o) => dec_opt(f@) == Some(opt_bytes(o)),
            None => dec_opt(f@) is None,
        },
{
    let n = f.len();
    if n == 1 && f[0] == 0 {
        Some(None)
    } else if n >= 1 && f[0] == 1 {
        let v = copy_tail(f);
        Some(Some(v))
    } else {
        None
    }
}

/// Read back one coordinate field.
fn dec_coord_exec(f: &Vec<u8>) -> (r: Option<i32>)
    ensures
        match r {
            Some(v) => dec_coord_field(f@) == Some(v as int),
            None => dec_coord_field(f@) is None,
        },
{
    if f.len() == 4 {
        Some(read_le4(f, 0) as i32)
    } else {
        None
    }
}

/// Read back the optional small code field.
fn dec_wheel_exec(f: &Vec<u8>) -> (r: Option<Option<u32>>)
    ensures
        match r {
            Some(o) => dec_wheel(f@) == Some(o),
            None => dec_wheel(f@) is None,
        },
{
    let n = f.len();
    if n == 1 && f[0] == 0 {
        Some(None)
    } else if n == 5 && f[0] == 1 {
        let v = (f[1] as u32) | ((f[2] as u32) << 8) | ((f[3] as u32) << 16) | ((f[4] as u32)
            << 24);
        Some(Some(v))
    } else {
        None
    }
}

/// Read back one record from its fifteen field frames.
fn record_from_fields(fs: &Vec<Vec<u8>>, off: usize) -> (r: Option<StopRecord>)
    requires
        off + 15 <= fs@.len(),
    ensures
        match r {
            Some(rec) => spec_record_from_fields(
                frame_views(fs@).subrange(off as int, off as int + 15),
            ) == Some(rec@),
            None => spec_record_from_fields(
                frame_views(fs@).subrange(off as int, off as int + 15),
            ) is None,
        },
{
    let total = fs.len();
    let ghost sub = frame_views(fs@).subrange(off as int, off as int + 15);
    proof {
        assert forall|k: int| 0 <= k < 15 implies sub[k] == fs@[off + k]@ by {}
        assert(sub.len() == 15);
    }
    let stop_id = copy_bytes(&fs[off]);
    let stop_code = match dec_opt_field(&fs[off + 1]) {
        Some(o) => o,
        None => {
            return None;
        },
    };
    let stop_name = copy_bytes(&fs[off + 2]);
    let tts_stop_name = match dec_opt_field(&fs[off + 3]) {
        Some(o) => o,
        None => {
            return None;
        },
    };
    let stop_desc = match dec_opt_field(&fs[off + 4]) {
        Some(o) => o,
        None => {
            return None;
        },
    };
    let stop_lat = match dec_coord_exec(&fs[off + 5]) {
        Some(v) => v,
        None => {
            return None;
        },
    };
    let stop_lon = match dec_coord_exec(&fs[off + 6]) {
        Some(v) => v,
        None => {
            return None;
        },
    };
    let zone_id = match dec_opt_field(&fs[off + 7]) {
        Some(o) => o,
        None => {
            return None;
        },
    };
    let stop_url = match dec_opt_field(&fs[off + 8]) {
        Some(o) => o,
        None => {
            return None;
        },
    };
    let location_type = match dec_opt_field(&fs[off + 9]) {
        Some(o) => o,
        None => {
            return None;
        },
    };
    let parent_station = match dec_opt_field(&fs[off + 10]) {
        Some(o) => o,
        None => {
            return None;
        },
    };
    let stop_timezone = match dec_opt_field(&fs[off + 11]) {
        Some(o) => o,
        None => {
            return None;
        },
    };
    let wheelchair_boarding = match dec_wheel_exec(&fs[off + 12]) {
        Some(o) => o,
        None => {
            return None;
        },
    };
    let level_id = match dec_opt_field(&fs[off + 13]) {
        Some(o) => o,
        None => {
            return None;
        },
    };
    let platform_code = match dec_opt_field(&fs[off + 14]) {
        Some(o) => o,
        None => {
            return None;
        },
    };
    let rec = StopRecord {
        stop_id,
        stop_code,
        stop_name,
        tts_stop_name,
        stop_desc,
        stop_lat,
        stop_lon,
        zone_id,
        stop_url,
        location_type,
        parent_station,
        stop_timezone,
        wheelchair_boarding,
        level_id,
        platform_code,
    };
    Some(rec)
}

/// Read back one index point from its eight-byte frame.
fn point_from_frame(f: &Vec<u8>) -> (r: Option<Point>)
    ensures
        match r {
            Some(p) => dec_point(f@) == Some(p),
            None => dec_point(f@) is None,
        },
{
    if f.len() == 8 {
        Some(Point { lat: read_le4(f, 0) as i32, lon: read_le4(f, 4) as i32 })
    } else {
        None
    }
}

} // verus!

verus! {

/// Reconstruct an artifact from its binary form.  Accepts exactly the
/// well-formed encodings: anything else, including an index that does not
/// carry its collection's coordinates, is rejected.
#[verifier::rlimit(50)]
#[verifier::loop_isolation(false)]
pub fn decode_artifact(b: &Vec<u8>) -> (r: Option<Artifact>)
    ensures
        match r {
            Some(a) => spec_dec_artifact(b@) == Some((stops_view(a.stops@), a.index@)) && a.wf(),
            None => spec_dec_artifact(b@) is None,
        },
{
    let fs = match read_frames(b) {
        Some(fs) => fs,
        None => {
            return None;
        },
    };
    let total = fs.len();
    let ghost fv = frame_views(fs@);
    if total == 0 {
        return None;
    }
    if fs[0].len() != 4 {
        return None;
    }
    let n32 = read_le4(&fs[0], 0);
    proof {
        assert(fv[0] == fs@[0]@);
        assert(take4(fv[0], 0) == n32);
    }
    if (total as u64) != 1 + 16 * (n32 as u64) {
        return None;
    }
    let n = n32 as usize;
    let ghost nn = n as int;
    let ghost rfields = fv.subrange(1, 1 + 15 * nn);
    let mut stops: Vec<StopRecord> = Vec::new();
    proof {
        assert(stops_view(stops@) =~= Seq::<StopData>::empty());
    }
    let mut i: usize = 0;
    while i < n
        invariant
            total == fs@.len(),
            fv == frame_views(fs@),
            nn == n as int,
            total as int == 1 + 16 * nn,
            rfields == fv.subrange(1, 1 + 15 * nn),
            0 <= i <= n,
            stops@.len() == i,
            dec_records(rfields, nn, 0, Seq::empty()) == dec_records(
                rfields,
                nn,
                i as int,
                stops_view(stops@),
            ),
        decreases n - i,
    {
        let rec = match record_from_fields(&fs, 1 + 15 * i) {
            Some(rec) => rec,
            None => {
                proof {
                    assert(rfields.subrange(15 * i as int, 15 * i as int + 15) =~= frame_views(
                        fs@,
                    ).subrange(1 + 15 * i as int, 1 + 15 * i as int + 15));
                    assert(dec_records(rfields, nn, i as int, stops_view(stops@)) is None);
                    assert(dec_records(rfields, nn, 0, Seq::empty()) is None);
                    assert(spec_dec_artifact(b@) is None);
                }
                return None;
            },
        };
        let ghost prev = stops@;
        stops.push(rec);
        proof {
            assert(rfields.subrange(15 * i as int, 15 * i as int + 15) =~= frame_views(
                fs@,
            ).subrange(1 + 15 * i as int, 1 + 15 * i as int + 15));
            assert(stops_view(stops@) =~= stops_view(prev).push(rec@));
        }
        i += 1;
    }
    proof {
        assert(dec_records(rfields, nn, 0, Seq::empty()) == Some(stops_view(stops@)));
    }
    let mut points: Vec<Point> = Vec::new();
    let ghost pfields = fv.subrange(1 + 15 * nn, 1 + 16 * nn);
    let mut i: usize = 0;
    while i < n
        invariant
            total == fs@.len(),
            fv == frame_views(fs@),
            nn == n as int,
            total as int == 1 + 16 * nn,
            pfields == fv.subrange(1 + 15 * nn, 1 + 16 * nn),
            0 <= i <= n,
            points@.len() == i,
            dec_points(pfields, 0, Seq::empty()) == dec_points(pfields, i as int, points@),
        decreases n - i,
    {
        let pt = match point_from_frame(&fs[1 + 15 * n + i]) {
            Some(pt) => pt,
            None => {
                proof {
                    assert(pfields[i as int] == fv[1 + 15 * nn + i as int]);
                    assert(dec_points(pfields, i as int, points@) is None);
                    assert(dec_points(pfields, 0, Seq::empty()) is None);
                    assert(spec_dec_artifact(b@) is None);
                }
                return None;
            },
        };
        let ghost prev = points@;
        points.push(pt);
        proof {
            assert(pfields[i as int] == fv[1 + 15 * nn + i as int]);
            assert(points@ =~= prev.push(pt));
        }
        i += 1;
    }
    proof {
        assert(dec_points(pfields, 0, Seq::empty()) == Some(points@));
    }
    let mut i: usize = 0;
    while i < n
        invariant
            0 <= i <= n,
            stops@.len() == n,
            points@.len() == n,
            forall|j: int|
                0 <= j < i ==> (#[trigger] points@[j]).lat as int == stops_view(
                    stops@,
                )[j].stop_lat && points@[j].lon as int == stops_view(stops@)[j].stop_lon,
        decreases n - i,
    {
        if points[i].lat != stops[i].stop_lat || points[i].lon != stops[i].stop_lon {
            proof {
                assert(points@[i as int].lat as int != stops_view(stops@)[i as int].stop_lat
                    || points@[i as int].lon as int != stops_view(stops@)[i as int].stop_lon);
                assert(!points_match(stops_view(stops@), points@));
                assert(spec_dec_artifact(b@) is None);
            }
            return None;
        }
        i += 1;
    }
    proof {
        assert(points_match(stops_view(stops@), points@));
    }
    let index = SpatialIndex { points };
    let a = Artifact { stops, index };
    proof {
        assert(a.index@ =~= points_of(a.stops@));
    }
    Some(a)
}

} // verus!
