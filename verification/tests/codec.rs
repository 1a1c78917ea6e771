use dss_codec::codec::qp::{adaptive_excitation, pulse_taps, update_pitch_memory, NoiseSource};
use dss_codec::codec::qp_fields::{
    fields_fit, qp7_record, qp7_record_layout, qp_frame, qp_frame_layout, Qp7Record,
};

#[test]
fn layouts_fill_their_records() {
    assert_eq!(qp_frame_layout().iter().sum::<u32>(), 56 * 8);
    assert_eq!(1 + qp7_record_layout(false).iter().sum::<u32>(), 56 * 8);
    assert_eq!(1 + qp7_record_layout(true).iter().sum::<u32>(), 12 * 8);
    assert_eq!(qp_frame_layout()[..20], [
        7, 7, 6, 6, 5, 5, 5, 5, 5, 4, 4, 4, 4, 3, 3, 3, 8, 6, 40, 6
    ]);
    assert_eq!(qp7_record_layout(true)[14..], [3, 2, 5, 5, 5, 5]);
    assert_eq!(qp7_record_layout(false).len(), 76);
}

#[test]
fn fields_are_held_to_their_widths() {
    let layout = qp_frame_layout();
    let largest: Vec<u64> = layout.iter().map(|&width| (1u64 << width) - 1).collect();
    assert!(fields_fit(&largest, &layout));
    assert!(!fields_fit(&largest[1..], &layout));
    for i in 0..layout.len() {
        let mut fields = largest.clone();
        fields[i] += 1;
        assert!(!fields_fit(&fields, &layout));
    }
}

#[test]
fn frames_are_read_from_their_fields() {
    let layout = qp_frame_layout();
    let fields: Vec<u64> = (0..layout.len() as u64)
        .map(|i| i % (1 << layout[i as usize].min(6)))
        .collect();
    let frame = qp_frame(&fields);
    assert_eq!(frame.refl_indices, [0, 1, 2, 3, 4, 5, 6, 7, 8, 9, 10, 11, 12, 5, 6, 7]);
    assert_eq!(frame.subframes.len(), 4);
    assert_eq!(frame.subframes[0].pitch, 16 + 45);
    assert_eq!(frame.subframes[0].pitch_gain, 17);
    assert_eq!(frame.subframes[0].pulse_code, 18);
    assert_eq!(frame.subframes[0].gain, 19);
    assert_eq!(frame.subframes[0].pulses, [4, 5, 6, 7, 0, 1, 2, 3, 4, 5, 6]);
    assert_eq!(frame.subframes[3].pitch, 61 + 45);
    assert_eq!(frame.subframes[3].gain, 0);

    let largest: Vec<u64> = layout.iter().map(|&width| (1u64 << width) - 1).collect();
    let frame = qp_frame(&largest);
    assert_eq!(frame.refl_indices[0], 127);
    assert_eq!(frame.subframes[1].pitch, 300);
    assert_eq!(frame.subframes[1].pulse_code, (1 << 40) - 1);
    assert_eq!(frame.subframes[1].pulses, [7; 11]);
}

#[test]
fn records_are_read_from_their_fields() {
    let fields: Vec<u64> = (0..20).map(|i| i % 4).collect();
    assert!(fields_fit(&fields, &qp7_record_layout(true)));
    match qp7_record(true, &fields) {
        Qp7Record::Short {
            refl_indices,
            gains,
        } => {
            assert_eq!(refl_indices, [0, 1, 2, 3, 0, 1, 2, 3, 0, 1, 2, 3, 0, 1, 2, 3]);
            assert_eq!(gains, [0, 1, 2, 3]);
        }
        Qp7Record::Long(_) => panic!("expected a short record"),
    }
    let fields: Vec<u64> = (0..76).map(|i| i % 4).collect();
    assert_eq!(
        qp7_record(false, &fields),
        Qp7Record::Long(qp_frame(&fields))
    );
}

#[test]
fn noise_is_a_congruence_of_sixteen_bits() {
    let mut source = NoiseSource::new();
    let mut state: u16 = 0;
    assert_eq!(source.next_sample(), 0x103);
    state = state.wrapping_mul(0x209).wrapping_add(0x103);
    for _ in 0..40 {
        for sample in source.next_subframe() {
            state = state.wrapping_mul(0x209).wrapping_add(0x103);
            assert_eq!(sample, state as i16);
        }
    }
}

#[test]
fn adaptive_excitation_repeats_the_memory() {
    let memory: Vec<i32> = (0..364).collect();
    let long = adaptive_excitation(&memory, 300);
    assert_eq!(long, (64..128).collect::<Vec<i32>>());
    let edge = adaptive_excitation(&memory, 64);
    assert_eq!(edge, (300..364).collect::<Vec<i32>>());
    let short = adaptive_excitation(&memory, 45);
    let mut expected: Vec<i32> = (319..364).collect();
    expected.extend(319..338);
    assert_eq!(short, expected);
}

#[test]
fn pitch_memory_moves_on() {
    let mut memory: Vec<f64> = (0..364).map(|i| i as f64).collect();
    let excitation = [0.5f64; 64];
    update_pitch_memory(&mut memory, &excitation);
    assert_eq!(memory.len(), 364);
    assert_eq!(memory[0], 64.0);
    assert_eq!(memory[299], 363.0);
    assert_eq!(memory[300..], excitation);
}

#[test]
fn pulses_outside_of_the_subframe_are_left_out() {
    assert_eq!(
        pulse_taps(&[3, 64, 63, 3], &[1, 2, 7, 0]),
        vec![(3, 1), (63, 7), (3, 0)]
    );
    assert!(pulse_taps(&[], &[1]).is_empty());
    assert!(pulse_taps(&[64], &[]).is_empty());
}
