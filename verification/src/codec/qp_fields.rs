//! The bit fields of the frames and records of the QP and QP7 modes.
//!
//! A frame is a row of bit fields. The functions here say how wide they are, in
//! the order in which they are read, and what the values mean.

use vstd::arithmetic::power2::{lemma2_to64, lemma2_to64_rest, pow2};
use vstd::prelude::*;

verus! {

/// The number of reflection coefficients.
pub const NUM_COEFFS: usize = 16;

/// The number of subframes in a frame.
pub const NUM_SUBFRAMES: usize = 4;

/// The number of pulses in a subframe.
pub const EXCITATION_PULSES: usize = 11;

/// The shortest pitch, which a pitch field of zero means.
pub const MIN_PITCH: u32 = 45;

/// The number of fields of a subframe.
const SUBFRAME_FIELDS: usize = 15;

/// The number of fields of a frame.
const FRAME_FIELDS: usize = 76;

/// The number of fields of a short record behind its first bit.
const SHORT_FIELDS: usize = 20;

/// The widths of the fields of the reflection coefficients in the QP mode.
pub open spec fn refl_widths() -> Seq<u32> {
    seq![7, 7, 6, 6, 5, 5, 5, 5, 5, 4, 4, 4, 4, 3, 3, 3]
}

/// The widths of the fields of the reflection coefficients in the QP7 mode.
pub open spec fn qp7_refl_widths() -> Seq<u32> {
    seq![7, 7, 6, 6, 5, 5, 5, 5, 5, 4, 4, 4, 4, 3, 3, 2]
}

/// The widths of the fields of a subframe: pitch, pitch gain, code of the pulse
/// positions, gain, and the amplitudes of the pulses.
pub open spec fn subframe_widths() -> Seq<u32> {
    seq![8, 6, 40, 6, 3, 3, 3, 3, 3, 3, 3, 3, 3, 3, 3]
}

/// The widths of the fields of a frame.
pub open spec fn frame_widths(refl: Seq<u32>) -> Seq<u32> {
    refl + subframe_widths() + subframe_widths() + subframe_widths() + subframe_widths()
}

/// The widths of the fields of a short record behind its first bit: reflection
/// coefficients and the gains of the subframes.
pub open spec fn short_widths() -> Seq<u32> {
    qp7_refl_widths() + seq![5u32, 5, 5, 5]
}

/// The widths of the fields of a record of the QP7 mode behind its first bit,
/// which says whether the record is long.
pub open spec fn qp7_widths(is_short: bool) -> Seq<u32> {
    if is_short {
        short_widths()
    } else {
        frame_widths(qp7_refl_widths())
    }
}

/// How many bits a row of fields takes.
pub open spec fn total_bits(widths: Seq<u32>) -> nat
    decreases widths.len(),
{
    if widths.len() == 0 {
        0
    } else {
        total_bits(widths.drop_last()) + widths.last() as nat
    }
}

/// Two rows of fields take the bits of both.
proof fn lemma_total_bits(a: Seq<u32>, b: Seq<u32>)
    ensures
        total_bits(a + b) == total_bits(a) + total_bits(b),
    decreases b.len(),
{
    if b.len() == 0 {
        assert(a + b =~= a);
    } else {
        lemma_total_bits(a, b.drop_last());
        assert((a + b).drop_last() =~= a + b.drop_last());
    }
}

/// The bits of one field more.
proof fn lemma_one_more(a: Seq<u32>, w: u32)
    ensures
        total_bits(a.push(w)) == total_bits(a) + w,
{
    assert(a.push(w).drop_last() =~= a);
}

/// The bits of the rows that are written out above.
proof fn lemma_row_bits()
    ensures
        total_bits(refl_widths()) == 76,
        total_bits(qp7_refl_widths()) == 75,
        total_bits(subframe_widths()) == 93,
        total_bits(seq![5u32, 5, 5, 5]) == 20,
{
    let e = Seq::<u32>::empty();
    let r = e.push(7).push(7).push(6).push(6).push(5).push(5).push(5).push(5).push(5).push(4).push(
        4,
    ).push(4).push(4).push(3).push(3);
    assert(refl_widths() =~= r.push(3));
    assert(qp7_refl_widths() =~= r.push(2));
    let s = e.push(8).push(6).push(40).push(6).push(3).push(3).push(3).push(3).push(3).push(3).push(
        3,
    ).push(3).push(3).push(3).push(3);
    assert(subframe_widths() =~= s);
    assert(seq![5u32, 5, 5, 5] =~= e.push(5).push(5).push(5).push(5));
    lemma_pushes();
}

/// The bits of a row grow by the field that is added.
proof fn lemma_pushes()
    ensures
        forall|a: Seq<u32>, w: u32| #[trigger] total_bits(a.push(w)) == total_bits(a) + w,
{
    assert forall|a: Seq<u32>, w: u32| #[trigger] total_bits(a.push(w)) == total_bits(a) + w by {
        lemma_one_more(a, w);
    }
}

/// The fields of a frame of the QP mode fill the 56 bytes of a frame exactly.
/// In the QP7 mode they fill, together with the first bit, the 56 bytes of a
/// long record and the 12 bytes of a short one.
pub proof fn law_fields_fill_records()
    ensures
        total_bits(frame_widths(refl_widths())) == 8 * 56,
        1 + total_bits(qp7_widths(false)) == 8 * 56,
        1 + total_bits(qp7_widths(true)) == 8 * 12,
{
    lemma_row_bits();
    lemma_frame_bits(refl_widths());
    lemma_frame_bits(qp7_refl_widths());
    lemma_total_bits(qp7_refl_widths(), seq![5u32, 5, 5, 5]);
}

/// The bits of a frame are those of its coefficients and of four subframes.
proof fn lemma_frame_bits(refl: Seq<u32>)
    ensures
        total_bits(frame_widths(refl)) == total_bits(refl) + 4 * total_bits(subframe_widths()),
{
    let sub = subframe_widths();
    lemma_total_bits(refl, sub);
    lemma_total_bits(refl + sub, sub);
    lemma_total_bits(refl + sub + sub, sub);
    lemma_total_bits(refl + sub + sub + sub, sub);
}

/// Appends numbers to a row of widths.
fn append_widths(widths: &mut Vec<u32>, more: &[u32])
    ensures
        final(widths)@ == old(widths)@ + more@,
{
    widths.extend_from_slice(more);
    assert(widths@ =~= old(widths)@ + more@);
}

/// The widths of the fields of a frame of the QP mode, in the order in which
/// they are read.
pub fn qp_frame_layout() -> (widths: Vec<u32>)
    ensures
        widths@ == frame_widths(refl_widths()),
{
    let refl: [u32; 16] = [7, 7, 6, 6, 5, 5, 5, 5, 5, 4, 4, 4, 4, 3, 3, 3];
    let mut widths: Vec<u32> = Vec::new();
    append_widths(&mut widths, refl.as_slice());
    assert(widths@ =~= refl_widths());
    append_subframes(&mut widths);
    widths
}

/// The widths of the fields of a record of the QP7 mode behind its first bit,
/// in the order in which they are read.
pub fn qp7_record_layout(is_short: bool) -> (widths: Vec<u32>)
    ensures
        widths@ == qp7_widths(is_short),
{
    let refl: [u32; 16] = [7, 7, 6, 6, 5, 5, 5, 5, 5, 4, 4, 4, 4, 3, 3, 2];
    let mut widths: Vec<u32> = Vec::new();
    append_widths(&mut widths, refl.as_slice());
    assert(widths@ =~= qp7_refl_widths());
    if is_short {
        let gains: [u32; 4] = [5, 5, 5, 5];
        append_widths(&mut widths, gains.as_slice());
        assert(gains@ =~= seq![5u32, 5, 5, 5]);
    } else {
        append_subframes(&mut widths);
    }
    widths
}

/// Appends the widths of the fields of the four subframes.
fn append_subframes(widths: &mut Vec<u32>)
    ensures
        final(widths)@ == frame_widths(old(widths)@),
{
    let subframe: [u32; 15] = [8, 6, 40, 6, 3, 3, 3, 3, 3, 3, 3, 3, 3, 3, 3];
    assert(subframe@ =~= subframe_widths());
    append_widths(widths, subframe.as_slice());
    append_widths(widths, subframe.as_slice());
    append_widths(widths, subframe.as_slice());
    append_widths(widths, subframe.as_slice());
}

/// Whether the values can have been read from fields of these widths.
pub open spec fn fits(fields: Seq<u64>, widths: Seq<u32>) -> bool {
    &&& fields.len() == widths.len()
    &&& forall|i: int| 0 <= i < fields.len() ==> #[trigger] fields[i] < pow2(widths[i] as nat)
}

/// Whether the values can have been read from fields of these widths, none of
/// which is wider than 63 bits.
pub fn fields_fit(fields: &[u64], widths: &[u32]) -> (res: bool)
    requires
        forall|i: int| 0 <= i < widths@.len() ==> #[trigger] widths@[i] < 64,
    ensures
        res == fits(fields@, widths@),
{
    if fields.len() != widths.len() {
        return false;
    }
    let mut i: usize = 0;
    while i < fields.len()
        invariant
            fields@.len() == widths@.len(),
            forall|j: int| 0 <= j < widths@.len() ==> #[trigger] widths@[j] < 64,
            i <= fields@.len(),
            forall|j: int|
                0 <= j < i ==> #[trigger] fields@[j] < pow2(widths@[j] as nat),
        decreases fields@.len() - i,
    {
        assert(widths@[i as int] < 64);
        if fields[i] >= field_limit(widths[i]) {
            return false;
        }
        i += 1;
    }
    true
}

/// The number of values of a field.
fn field_limit(width: u32) -> (limit: u64)
    requires
        width < 64,
    ensures
        limit == pow2(width as nat),
{
    let mut limit: u64 = 1;
    let mut i: u32 = 0;
    proof {
        lemma2_to64();
    }
    while i < width
        invariant
            i <= width < 64,
            limit == pow2(i as nat),
        decreases width - i,
    {
        proof {
            lemma_pow2_bound(i as nat);
            vstd::arithmetic::power2::lemma_pow2_unfold((i + 1) as nat);
        }
        limit = limit * 2;
        i += 1;
    }
    limit
}

/// Fewer than 63 bits leave room for one more.
proof fn lemma_pow2_bound(n: nat)
    requires
        n <= 62,
    ensures
        pow2(n) <= 0x4000_0000_0000_0000,
{
    lemma2_to64();
    lemma2_to64_rest();
    if n < 62 {
        vstd::arithmetic::power2::lemma_pow2_strictly_increases(n, 62);
    }
}

/// The fields of a subframe.
#[derive(Debug, Clone, PartialEq, Eq)]
pub struct QpSubframe {
    /// The pitch in samples.
    pub pitch: u32,
    /// Which pitch gain.
    pub pitch_gain: usize,
    /// The code of the positions of the pulses.
    pub pulse_code: u64,
    /// Which excitation gain.
    pub gain: usize,
    /// Which amplitude each pulse has.
    pub pulses: Vec<usize>,
}

/// The mathematical value of a [`QpSubframe`].
pub struct SubframeModel {
    pub pitch: int,
    pub pitch_gain: int,
    pub pulse_code: int,
    pub gain: int,
    pub pulses: Seq<int>,
}

/// The values of a list of numbers.
pub open spec fn numbers(list: Seq<usize>) -> Seq<int> {
    list.map_values(|n: usize| n as int)
}

impl View for QpSubframe {
    type V = SubframeModel;

    open spec fn view(&self) -> SubframeModel {
        SubframeModel {
            pitch: self.pitch as int,
            pitch_gain: self.pitch_gain as int,
            pulse_code: self.pulse_code as int,
            gain: self.gain as int,
            pulses: numbers(self.pulses@),
        }
    }
}

/// The fields of a frame.
#[derive(Debug, Clone, PartialEq, Eq)]
pub struct QpFrame {
    /// Which value each reflection coefficient has.
    pub refl_indices: Vec<usize>,
    /// The subframes.
    pub subframes: Vec<QpSubframe>,
}

/// The mathematical value of a [`QpFrame`].
pub struct FrameModel {
    pub refl_indices: Seq<int>,
    pub subframes: Seq<SubframeModel>,
}

impl View for QpFrame {
    type V = FrameModel;

    open spec fn view(&self) -> FrameModel {
        FrameModel {
            refl_indices: numbers(self.refl_indices@),
            subframes: self.subframes@.map_values(|subframe: QpSubframe| subframe@),
        }
    }
}

/// The `n` fields from `at` on.
pub open spec fn fields_at(fields: Seq<u64>, at: int, n: nat) -> Seq<int> {
    Seq::new(n, |i: int| fields[at + i] as int)
}

/// The subframe whose fields begin at `at`.
pub open spec fn subframe_at(fields: Seq<u64>, at: int) -> SubframeModel {
    SubframeModel {
        pitch: fields[at] + 45,
        pitch_gain: fields[at + 1] as int,
        pulse_code: fields[at + 2] as int,
        gain: fields[at + 3] as int,
        pulses: fields_at(fields, at + 4, 11),
    }
}

/// The frame with these fields.
pub open spec fn frame_of(fields: Seq<u64>) -> FrameModel {
    FrameModel {
        refl_indices: fields_at(fields, 0, 16),
        subframes: Seq::new(4, |sf: int| subframe_at(fields, 16 + 15 * sf)),
    }
}

/// What the indices of a frame with coefficients of these widths can be: the
/// pitch is 45 to 300 samples, both gains have 64 values, the code has 40 bits,
/// and a pulse has 8 amplitudes.
pub open spec fn frame_in_range(frame: FrameModel, refl: Seq<u32>) -> bool {
    &&& frame.refl_indices.len() == 16
    &&& forall|i: int|
        0 <= i < 16 ==> 0 <= #[trigger] frame.refl_indices[i] < pow2(refl[i] as nat)
    &&& frame.subframes.len() == 4
    &&& forall|sf: int|
        0 <= sf < 4 ==> subframe_in_range(#[trigger] frame.subframes[sf])
}

/// What the indices of a subframe can be.
pub open spec fn subframe_in_range(subframe: SubframeModel) -> bool {
    &&& 45 <= subframe.pitch <= 300
    &&& 0 <= subframe.pitch_gain < 64
    &&& 0 <= subframe.pulse_code < 0x100_0000_0000
    &&& 0 <= subframe.gain < 64
    &&& subframe.pulses.len() == 11
    &&& forall|i: int| 0 <= i < 11 ==> 0 <= #[trigger] subframe.pulses[i] < 8
}

/// The number of values of the fields that occur.
proof fn lemma_field_sizes()
    ensures
        pow2(3) == 8,
        pow2(5) == 32,
        pow2(6) == 64,
        pow2(8) == 256,
        pow2(40) == 0x100_0000_0000,
{
    lemma2_to64();
    lemma2_to64_rest();
}

/// A field of a subframe fits the width that it has in every subframe.
proof fn lemma_subframe_field(fields: Seq<u64>, refl: Seq<u32>, sf: int, i: int)
    requires
        refl.len() == 16,
        fits(fields, frame_widths(refl)),
        0 <= sf < 4,
        0 <= i < 15,
    ensures
        fields[16 + 15 * sf + i] < pow2(subframe_widths()[i] as nat),
{
    let at = 16 + 15 * sf + i;
    assert(frame_widths(refl)[at] == subframe_widths()[i]);
    assert(fields[at] < pow2(frame_widths(refl)[at] as nat));
}

/// A subframe of a frame whose fields fit is in range.
proof fn lemma_subframe_in_range(fields: Seq<u64>, refl: Seq<u32>, sf: int)
    requires
        refl.len() == 16,
        fits(fields, frame_widths(refl)),
        0 <= sf < 4,
    ensures
        subframe_in_range(subframe_at(fields, 16 + 15 * sf)),
{
    let subframe = subframe_at(fields, 16 + 15 * sf);
    lemma_field_sizes();
    lemma_subframe_field(fields, refl, sf, 0);
    lemma_subframe_field(fields, refl, sf, 1);
    lemma_subframe_field(fields, refl, sf, 2);
    lemma_subframe_field(fields, refl, sf, 3);
    assert forall|i: int| 0 <= i < 11 implies 0 <= #[trigger] subframe.pulses[i] < 8 by {
        lemma_subframe_field(fields, refl, sf, 4 + i);
        assert(subframe_widths()[4 + i] == 3);
    }
}

/// The indices of a frame whose fields fit are in range.
pub proof fn law_frame_indices_in_range(fields: Seq<u64>, refl: Seq<u32>)
    requires
        refl.len() == 16,
        fits(fields, frame_widths(refl)),
    ensures
        frame_in_range(frame_of(fields), refl),
{
    let frame = frame_of(fields);
    assert forall|i: int| 0 <= i < 16 implies 0 <= #[trigger] frame.refl_indices[i] < pow2(
        refl[i] as nat,
    ) by {
        assert(frame_widths(refl)[i] == refl[i]);
        assert(fields[i] < pow2(frame_widths(refl)[i] as nat));
    }
    assert forall|sf: int| 0 <= sf < 4 implies subframe_in_range(
        #[trigger] frame.subframes[sf],
    ) by {
        lemma_subframe_in_range(fields, refl, sf);
    }
}

/// The `n` fields from `at` on, as indices.
fn read_indices(fields: &[u64], at: usize, n: usize) -> (indices: Vec<usize>)
    requires
        at + n <= fields.len(),
        forall|i: int| at <= i < at + n ==> #[trigger] fields@[i] < 256,
    ensures
        numbers(indices@) == fields_at(fields@, at as int, n as nat),
{
    let mut indices: Vec<usize> = Vec::new();
    let mut i: usize = 0;
    while i < n
        invariant
            at + n <= fields.len(),
            forall|j: int| at <= j < at + n ==> #[trigger] fields@[j] < 256,
            i <= n,
            indices@.len() == i,
            forall|j: int| 0 <= j < i ==> #[trigger] indices@[j] == fields@[at + j],
        decreases n - i,
    {
        assert(fields@[at + i] < 256);
        indices.push(fields[at + i] as usize);
        i += 1;
    }
    assert(numbers(indices@) =~= fields_at(fields@, at as int, n as nat));
    indices
}

/// A value that fits a coefficient field fits into a byte.
proof fn lemma_refl_bytes(fields: Seq<u64>, refl: Seq<u32>, i: int)
    requires
        refl == refl_widths() || refl == qp7_refl_widths(),
        0 <= i < 16 <= fields.len(),
        fields[i] < pow2(refl[i] as nat),
    ensures
        fields[i] < 256,
        fields[i] < pow2(refl_widths()[i] as nat),
{
    lemma_field_sizes();
    if refl[i] < 8 {
        vstd::arithmetic::power2::lemma_pow2_strictly_increases(refl[i] as nat, 8);
    }
    if refl[i] < refl_widths()[i] {
        vstd::arithmetic::power2::lemma_pow2_strictly_increases(
            refl[i] as nat,
            refl_widths()[i] as nat,
        );
    }
}

/// The subframe whose fields begin at `at`.
fn read_subframe(fields: &[u64], at: usize) -> (subframe: QpSubframe)
    requires
        at + SUBFRAME_FIELDS <= fields.len(),
        subframe_in_range(subframe_at(fields@, at as int)),
    ensures
        subframe@ == subframe_at(fields@, at as int),
{
    let ghost model = subframe_at(fields@, at as int);
    assert forall|i: int| at + 4 <= i < at + 15 implies #[trigger] fields@[i] < 256 by {
        assert(model.pulses[i - at - 4] == fields@[i]);
    }
    QpSubframe {
        pitch: fields[at] as u32 + MIN_PITCH,
        pitch_gain: fields[at + 1] as usize,
        pulse_code: fields[at + 2],
        gain: fields[at + 3] as usize,
        pulses: read_indices(fields, at + 4, EXCITATION_PULSES),
    }
}

/// The frame of the QP mode with these fields.
pub fn qp_frame(fields: &[u64]) -> (frame: QpFrame)
    requires
        fits(fields@, frame_widths(refl_widths())),
    ensures
        frame@ == frame_of(fields@),
        frame_in_range(frame@, refl_widths()),
{
    proof {
        law_frame_indices_in_range(fields@, refl_widths());
        assert forall|i: int| 0 <= i < 16 implies #[trigger] fields@[i] < 256 by {
            assert(frame_of(fields@).refl_indices[i] == fields@[i]);
            lemma_refl_bytes(fields@, refl_widths(), i);
        }
    }
    let refl_indices = read_indices(fields, 0, NUM_COEFFS);
    let mut subframes: Vec<QpSubframe> = Vec::new();
    let mut sf: usize = 0;
    while sf < NUM_SUBFRAMES
        invariant
            fields@.len() == FRAME_FIELDS,
            frame_in_range(frame_of(fields@), refl_widths()),
            sf <= NUM_SUBFRAMES,
            subframes@.len() == sf,
            forall|j: int|
                0 <= j < sf ==> (#[trigger] subframes@[j])@ == subframe_at(fields@, 16 + 15 * j),
        decreases NUM_SUBFRAMES - sf,
    {
        assert(subframe_in_range(frame_of(fields@).subframes[sf as int]));
        let subframe = read_subframe(fields, NUM_COEFFS + sf * SUBFRAME_FIELDS);
        subframes.push(subframe);
        sf += 1;
    }
    let frame = QpFrame { refl_indices, subframes };
    assert(frame@.subframes =~= frame_of(fields@).subframes);
    frame
}

/// A record of the QP7 mode.
#[derive(Debug, Clone, PartialEq, Eq)]
pub enum Qp7Record {
    /// Noise: only the coefficients and one gain for each subframe.
    Short {
        refl_indices: Vec<usize>,
        gains: Vec<usize>,
    },
    /// A frame as in the QP mode.
    Long(QpFrame),
}

/// The mathematical value of a [`Qp7Record`].
pub enum RecordModel {
    Short { refl_indices: Seq<int>, gains: Seq<int> },
    Long(FrameModel),
}

impl View for Qp7Record {
    type V = RecordModel;

    open spec fn view(&self) -> RecordModel {
        match self {
            Qp7Record::Short { refl_indices, gains } => RecordModel::Short {
                refl_indices: numbers(refl_indices@),
                gains: numbers(gains@),
            },
            Qp7Record::Long(frame) => RecordModel::Long(frame@),
        }
    }
}

/// The record with these fields behind its first bit.
pub open spec fn record_of(is_short: bool, fields: Seq<u64>) -> RecordModel {
    if is_short {
        RecordModel::Short {
            refl_indices: fields_at(fields, 0, 16),
            gains: fields_at(fields, 16, 4),
        }
    } else {
        RecordModel::Long(frame_of(fields))
    }
}

/// What the indices of a record can be: as in a frame, and a gain of a short
/// record has 32 values.
pub open spec fn record_in_range(record: RecordModel) -> bool {
    match record {
        RecordModel::Long(frame) => frame_in_range(frame, qp7_refl_widths()),
        RecordModel::Short { refl_indices, gains } => {
            &&& refl_indices.len() == 16
            &&& forall|i: int|
                0 <= i < 16 ==> 0 <= #[trigger] refl_indices[i] < pow2(
                    qp7_refl_widths()[i] as nat,
                )
            &&& gains.len() == 4
            &&& forall|i: int| 0 <= i < 4 ==> 0 <= #[trigger] gains[i] < 32
        },
    }
}

/// The indices of a record whose fields fit are in range.
pub proof fn law_record_indices_in_range(is_short: bool, fields: Seq<u64>)
    requires
        fits(fields, qp7_widths(is_short)),
    ensures
        record_in_range(record_of(is_short, fields)),
{
    if is_short {
        lemma_field_sizes();
        let widths = short_widths();
        let indices = fields_at(fields, 0, 16);
        let gains = fields_at(fields, 16, 4);
        assert forall|i: int| 0 <= i < 16 implies 0 <= #[trigger] indices[i] < pow2(
            qp7_refl_widths()[i] as nat,
        ) by {
            assert(widths[i] == qp7_refl_widths()[i]);
            assert(fields[i] < pow2(widths[i] as nat));
        }
        assert forall|i: int| 0 <= i < 4 implies 0 <= #[trigger] gains[i] < 32 by {
            assert(widths[16 + i] == 5);
            assert(fields[16 + i] < pow2(widths[16 + i] as nat));
        }
    } else {
        law_frame_indices_in_range(fields, qp7_refl_widths());
    }
}

/// A long record is a frame with one coefficient of fewer values.
proof fn lemma_long_record_is_frame(fields: Seq<u64>)
    requires
        fits(fields, frame_widths(qp7_refl_widths())),
    ensures
        fits(fields, frame_widths(refl_widths())),
{
    let narrow = frame_widths(qp7_refl_widths());
    let wide = frame_widths(refl_widths());
    assert forall|i: int| 0 <= i < fields.len() implies #[trigger] fields[i] < pow2(
        wide[i] as nat,
    ) by {
        assert(fields[i] < pow2(narrow[i] as nat));
        if i < 16 {
            assert(narrow[i] == qp7_refl_widths()[i] && wide[i] == refl_widths()[i]);
            lemma_refl_bytes(fields, qp7_refl_widths(), i);
        } else {
            assert(narrow[i] == wide[i]);
        }
    }
}

/// The record of the QP7 mode with these fields behind its first bit.
pub fn qp7_record(is_short: bool, fields: &[u64]) -> (record: Qp7Record)
    requires
        fits(fields@, qp7_widths(is_short)),
    ensures
        record@ == record_of(is_short, fields@),
        record_in_range(record@),
{
    proof {
        law_record_indices_in_range(is_short, fields@);
    }
    if is_short {
        assert(fields@.len() == SHORT_FIELDS);
        proof {
            let indices = fields_at(fields@, 0, 16);
            let gains = fields_at(fields@, 16, 4);
            assert forall|i: int| 0 <= i < 16 implies #[trigger] fields@[i] < 256 by {
                assert(indices[i] == fields@[i]);
                lemma_refl_bytes(fields@, qp7_refl_widths(), i);
            }
            assert forall|i: int| 16 <= i < 20 implies #[trigger] fields@[i] < 256 by {
                assert(gains[i - 16] == fields@[i]);
            }
        }
        let refl_indices = read_indices(fields, 0, NUM_COEFFS);
        let gains = read_indices(fields, NUM_COEFFS, NUM_SUBFRAMES);
        Qp7Record::Short { refl_indices, gains }
    } else {
        proof {
            lemma_long_record_is_frame(fields@);
        }
        Qp7Record::Long(qp_frame(fields))
    }
}

/// Which field of a frame is what: the first sixteen are the coefficients, and
/// then come the fifteen of each subframe in turn, which are its pitch less 45,
/// its pitch gain, its code, its gain and its eleven pulses.
pub proof fn law_frame_by_fields(fields: Seq<u64>)
    ensures
        ({
            let frame = frame_of(fields);
            &&& frame.refl_indices.len() == 16
            &&& forall|i: int| 0 <= i < 16 ==> #[trigger] frame.refl_indices[i] == fields[i]
            &&& frame.subframes.len() == 4
            &&& forall|sf: int|
                0 <= sf < 4 ==> {
                    let subframe = #[trigger] frame.subframes[sf];
                    &&& subframe.pitch == fields[16 + 15 * sf] + 45
                    &&& subframe.pitch_gain == fields[17 + 15 * sf]
                    &&& subframe.pulse_code == fields[18 + 15 * sf]
                    &&& subframe.gain == fields[19 + 15 * sf]
                    &&& subframe.pulses.len() == 11
                    &&& forall|i: int|
                        0 <= i < 11 ==> #[trigger] subframe.pulses[i] == fields[20 + 15 * sf + i]
                }
        }),
{
}

/// Writing out the coefficients of a frame and then, subframe by subframe, pitch
/// less 45, pitch gain, code, gain and pulses gives its fields back.
pub proof fn law_frame_gives_its_fields_back(fields: Seq<u64>)
    requires
        fields.len() == 76,
    ensures
        ({
            let frame = frame_of(fields);
            frame.refl_indices + frame.subframes.map_values(
                |subframe: SubframeModel|
                    seq![
                        subframe.pitch - 45,
                        subframe.pitch_gain,
                        subframe.pulse_code,
                        subframe.gain,
                    ] + subframe.pulses,
            ).flatten() == fields.map_values(|field: u64| field as int)
        }),
{
    let frame = frame_of(fields);
    let rows = frame.subframes.map_values(
        |subframe: SubframeModel|
            seq![
                subframe.pitch - 45,
                subframe.pitch_gain,
                subframe.pulse_code,
                subframe.gain,
            ] + subframe.pulses,
    );
    let all = fields.map_values(|field: u64| field as int);
    assert forall|sf: int| 0 <= sf < 4 implies #[trigger] rows[sf] == all.subrange(
        16 + 15 * sf,
        31 + 15 * sf,
    ) by {
        assert(rows[sf] =~= all.subrange(16 + 15 * sf, 31 + 15 * sf));
    }
    reveal_with_fuel(Seq::flatten, 5);
    assert(rows.drop_first().drop_first().drop_first().drop_first().len() == 0);
    assert(rows.flatten() =~= rows[0] + (rows[1] + (rows[2] + (rows[3] + Seq::empty()))));
    assert(frame.refl_indices + rows.flatten() =~= all);
}

/// Which field of a record is what: a long one is read like a frame, and a short
/// one has sixteen coefficients and four gains.
pub proof fn law_record_by_fields(fields: Seq<u64>)
    ensures
        record_of(false, fields) == RecordModel::Long(frame_of(fields)),
        record_of(true, fields) matches RecordModel::Short { refl_indices, gains } && {
            &&& refl_indices.len() == 16
            &&& forall|i: int| 0 <= i < 16 ==> #[trigger] refl_indices[i] == fields[i]
            &&& gains.len() == 4
            &&& forall|i: int| 0 <= i < 4 ==> #[trigger] gains[i] == fields[16 + i]
        },
{
}

/// How wide each field is, by its place: the two first coefficients have seven
/// bits, two have six, five have five, four have four and three have three, of
/// which the last has one bit less in the QP7 mode. In a subframe the pitch has
/// eight bits, both gains have six, the code has forty and every pulse has three.
/// The gains of a short record have five bits each.
pub proof fn law_widths_by_place(i: int)
    ensures
        frame_widths(refl_widths()).len() == 76,
        qp7_widths(false).len() == 76,
        qp7_widths(true).len() == 20,
        ({
            let coefficient: u32 = if i < 2 {
                7
            } else if i < 4 {
                6
            } else if i < 9 {
                5
            } else if i < 13 {
                4
            } else {
                3
            };
            let place = (i - 16) % 15;
            let part: u32 = if place == 0 {
                8
            } else if place == 2 {
                40
            } else if place < 4 {
                6
            } else {
                3
            };
            &&& 0 <= i < 16 ==> frame_widths(refl_widths())[i] == coefficient
            &&& 16 <= i < 76 ==> frame_widths(refl_widths())[i] == part
            &&& 0 <= i < 15 ==> qp7_widths(false)[i] == coefficient && qp7_widths(true)[i]
                == coefficient
            &&& i == 15 ==> qp7_widths(false)[i] == 2 && qp7_widths(true)[i] == 2
            &&& 16 <= i < 76 ==> qp7_widths(false)[i] == part
            &&& 16 <= i < 20 ==> qp7_widths(true)[i] == 5
        }),
{
    if 16 <= i < 76 {
        let place = (i - 16) % 15;
        assert(frame_widths(refl_widths())[i] == subframe_widths()[place]);
        assert(frame_widths(qp7_refl_widths())[i] == subframe_widths()[place]);
    }
}

/// Values fit their fields if there are as many and none has a bit above the
/// width of its field.
pub proof fn law_fits_by_values(fields: Seq<u64>, widths: Seq<u32>)
    ensures
        fits(fields, widths) <==> fields.len() == widths.len() && forall|i: int|
            0 <= i < widths.len() ==> (#[trigger] fields[i]) as int / pow2(widths[i] as nat) as int
                == 0,
{
    assert forall|i: int| 0 <= i < fields.len() && fields.len() == widths.len() implies (
    (#[trigger] fields[i]) as int / pow2(widths[i] as nat) as int == 0) == (fields[i] < pow2(
        widths[i] as nat,
    )) by {
        let p = pow2(widths[i] as nat) as int;
        let f = fields[i] as int;
        vstd::arithmetic::power2::lemma_pow2_pos(widths[i] as nat);
        assert((f / p == 0) == (f < p)) by (nonlinear_arith)
            requires
                0 <= f,
                0 < p,
        ;
    }
}

/// The value of a frame is what its parts hold, each at its own place.
pub proof fn law_frame_value(frame: QpFrame)
    ensures
        frame@.refl_indices.len() == frame.refl_indices@.len(),
        forall|i: int|
            0 <= i < frame.refl_indices@.len() ==> #[trigger] frame.refl_indices@[i]
                == frame@.refl_indices[i],
        frame@.subframes.len() == frame.subframes@.len(),
        forall|sf: int|
            0 <= sf < frame.subframes@.len() ==> {
                let subframe = #[trigger] frame.subframes@[sf];
                let value = frame@.subframes[sf];
                &&& value.pitch == subframe.pitch
                &&& value.pitch_gain == subframe.pitch_gain
                &&& value.pulse_code == subframe.pulse_code
                &&& value.gain == subframe.gain
                &&& value.pulses.len() == subframe.pulses@.len()
                &&& forall|i: int|
                    0 <= i < subframe.pulses@.len() ==> #[trigger] subframe.pulses@[i]
                        == value.pulses[i]
            },
{
}

/// The value of a record is what its parts hold.
pub proof fn law_record_value(record: Qp7Record)
    ensures
        match record {
            Qp7Record::Long(frame) => record@ == RecordModel::Long(frame@),
            Qp7Record::Short { refl_indices, gains } => {
                &&& record@ matches RecordModel::Short { refl_indices: r, gains: g } && {
                    &&& r.len() == refl_indices@.len() && g.len() == gains@.len()
                    &&& forall|i: int| 0 <= i < r.len() ==> #[trigger] r[i] == refl_indices@[i]
                    &&& forall|i: int| 0 <= i < g.len() ==> #[trigger] g[i] == gains@[i]
                }
            },
        },
{
}

} // verus!
