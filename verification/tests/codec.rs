use half::f16;

use ggufkit::codec::{
    iq1m_from_bytes, iq1m_pack_codes, iq1m_to_bytes, iq1m_unpack_codes, q5k_from_bytes,
    q5k_pack_codes, q5k_pack_scales, q5k_to_bytes, q5k_unpack_codes, q5k_unpack_scales, Q5K, IQ1M,
};

#[test]
fn q5k_code_roundtrip() {
    let mut codes: Vec<u8> = Vec::new();
    for i in 0..256usize {
        codes.push(((i * 7 + 3) % 32) as u8);
    }
    let (qs, qh) = q5k_pack_codes(&codes);
    assert_eq!(qs.len(), 128);
    assert_eq!(qh.len(), 32);
    let back = q5k_unpack_codes(&qs, &qh);
    assert_eq!(back, codes);
}

#[test]
fn q5k_pack_is_deterministic() {
    let mut codes: Vec<u8> = Vec::new();
    for i in 0..256usize {
        codes.push(((i * 13 + 5) % 32) as u8);
    }
    let (qs1, qh1) = q5k_pack_codes(&codes);
    let (qs2, qh2) = q5k_pack_codes(&codes);
    assert_eq!(qs1, qs2);
    assert_eq!(qh1, qh2);
}

#[test]
fn q5k_scales_roundtrip() {
    let sc: Vec<u8> = vec![0, 1, 17, 63, 42, 33, 5, 60];
    let mn: Vec<u8> = vec![63, 0, 9, 31, 12, 1, 55, 7];
    let packed = q5k_pack_scales(&sc, &mn);
    assert_eq!(packed.len(), 12);
    let (sc2, mn2) = q5k_unpack_scales(&packed);
    assert_eq!(sc2, sc);
    assert_eq!(mn2, mn);
}

#[test]
fn q5k_serialized_size_is_fixed() {
    let b = Q5K {
        delta: 0x3c00,
        min: 0x0000,
        scales: vec![0u8; 12],
        qh: vec![0u8; 32],
        qs: vec![0u8; 128],
    };
    let bytes = q5k_to_bytes(&b);
    assert_eq!(bytes.len(), 176);
}

#[test]
fn q5k_bytes_roundtrip() {
    let mut d: Vec<u8> = Vec::new();
    for i in 0..176usize {
        d.push((i * 11 % 251) as u8);
    }
    let b = q5k_from_bytes(&d);
    let d2 = q5k_to_bytes(&b);
    assert_eq!(d2, d);
}

#[test]
fn iq1m_code_roundtrip() {
    // pairs of weights share their high bit
    let mut codes: Vec<u8> = Vec::new();
    for p in 0..128usize {
        let hi = ((p * 5 + 1) % 2) as u8;
        let lo0 = (p % 2) as u8;
        let lo1 = ((p + 1) % 2) as u8;
        codes.push(lo0 | (hi << 1));
        codes.push(lo1 | (hi << 1));
    }
    let (qs, qh) = iq1m_pack_codes(&codes);
    assert_eq!(qs.len(), 32);
    assert_eq!(qh.len(), 16);
    let back = iq1m_unpack_codes(&qs, &qh);
    assert_eq!(back, codes);
}

#[test]
fn iq1m_serialized_size_is_fixed() {
    let b = IQ1M { qs: vec![0u8; 32], qh: vec![0u8; 16], scales: vec![0u8; 8] };
    let bytes = iq1m_to_bytes(&b);
    assert_eq!(bytes.len(), 56);
}

#[test]
fn iq1m_bytes_roundtrip() {
    let mut d: Vec<u8> = Vec::new();
    for i in 0..56usize {
        d.push((i * 37 % 256) as u8);
    }
    let b = iq1m_from_bytes(&d);
    let d2 = iq1m_to_bytes(&b);
    assert_eq!(d2, d);
}

// A scalar quantizer over the verified bit layout: per 32-weight
// sub-block, an affine min/step fit to five-bit codes; the block's
// delta and minimum carry the fit as half-precision bit patterns.
fn quantize_roundtrip(samples: &[f32; 256]) -> Vec<f32> {
    let mut codes: Vec<u8> = Vec::new();
    let mut mins: Vec<f32> = Vec::new();
    let mut steps: Vec<f32> = Vec::new();
    for sb in 0..8 {
        let chunk = &samples[sb * 32..sb * 32 + 32];
        let mut mn = f32::INFINITY;
        let mut mx = f32::NEG_INFINITY;
        for &x in chunk {
            let x = if x.is_finite() { x } else { 0.0 };
            if x < mn {
                mn = x;
            }
            if x > mx {
                mx = x;
            }
        }
        // carry the fit through half precision, as the block fields do
        let mn = f16::from_f32(mn).to_f32();
        let step = f16::from_f32((mx - mn) / 31.0).to_f32();
        mins.push(mn);
        steps.push(step);
        for &x in chunk {
            let x = if x.is_finite() { x } else { 0.0 };
            let c = if step > 0.0 { ((x - mn) / step).round() } else { 0.0 };
            let c = c.max(0.0).min(31.0) as u8;
            codes.push(c);
        }
    }
    let (qs, qh) = q5k_pack_codes(&codes);
    let back = q5k_unpack_codes(&qs, &qh);
    let mut out: Vec<f32> = Vec::new();
    for (i, &c) in back.iter().enumerate() {
        let sb = i / 32;
        out.push(mins[sb] + (c as f32) * steps[sb]);
    }
    out
}

#[test]
fn q5k_roundtrip_error_is_bounded() {
    let mut inputs: Vec<[f32; 256]> = Vec::new();
    inputs.push([0.0f32; 256]);
    let mut alt = [0.0f32; 256];
    for i in 0..256 {
        alt[i] = if i % 2 == 0 { 1.0 } else { -1.0 };
    }
    inputs.push(alt);
    let mut ramp = [0.0f32; 256];
    for i in 0..256 {
        ramp[i] = (i as f32) * 0.37 - 40.0;
    }
    inputs.push(ramp);
    let mut pseudo = [0.0f32; 256];
    let mut state: u32 = 0x12345678;
    for i in 0..256 {
        state = state.wrapping_mul(1664525).wrapping_add(1013904223);
        pseudo[i] = ((state >> 8) as f32 / (1 << 24) as f32) * 8.0 - 4.0;
    }
    inputs.push(pseudo);
    for samples in &inputs {
        let rec = quantize_roundtrip(samples);
        assert_eq!(rec.len(), 256);
        for sb in 0..8 {
            let chunk = &samples[sb * 32..sb * 32 + 32];
            let mut mn = f32::INFINITY;
            let mut mx = f32::NEG_INFINITY;
            for &x in chunk {
                if x < mn {
                    mn = x;
                }
                if x > mx {
                    mx = x;
                }
            }
            let step = (mx - mn) / 31.0;
            // half the step size, plus slack for the half-precision fit
            let bound = step * 0.5 + (mx - mn).abs() * 0.01 + 1e-6;
            for i in 0..32 {
                let e = (samples[sb * 32 + i] - rec[sb * 32 + i]).abs();
                assert!(e <= bound, "error {} above bound {}", e, bound);
            }
        }
    }
}

#[test]
fn q5k_roundtrip_is_deterministic() {
    let mut pseudo = [0.0f32; 256];
    let mut state: u32 = 0xdeadbeef;
    for i in 0..256 {
        state = state.wrapping_mul(1664525).wrapping_add(1013904223);
        pseudo[i] = ((state >> 8) as f32 / (1 << 24) as f32) * 2.0 - 1.0;
    }
    let a = quantize_roundtrip(&pseudo);
    let b = quantize_roundtrip(&pseudo);
    assert_eq!(a, b);
}

#[test]
fn q5k_roundtrip_constant_and_extreme_inputs() {
    // a constant block reconstructs exactly: the fitted step is zero
    let allmax = [65504.0f32; 256];
    let rec = quantize_roundtrip(&allmax);
    for &v in &rec {
        assert_eq!(v, 65504.0);
    }
    let allneg = [-65504.0f32; 256];
    let rec = quantize_roundtrip(&allneg);
    for &v in &rec {
        assert_eq!(v, -65504.0);
    }
}

#[test]
fn q5k_non_finite_inputs_still_produce_a_block() {
    // corrupted weights must quantize deterministically, never fail
    let mut bad = [1.0f32; 256];
    bad[3] = f32::NAN;
    bad[77] = f32::INFINITY;
    bad[200] = f32::NEG_INFINITY;
    let a = quantize_roundtrip(&bad);
    let b = quantize_roundtrip(&bad);
    assert_eq!(a.len(), 256);
    for &v in &a {
        assert!(v.is_finite());
    }
    assert_eq!(a, b);
}
