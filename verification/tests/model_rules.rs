use ppmd_rust::model7::{added_symbol_freq7_exec, new_context_freq7_exec};
use ppmd_rust::model8::{
    added_symbol_freq_exec, exp_escape, init_bin_esc, new_context_freq_exec, see_after_hit_exec,
    see_estimate_exec, symbol_flag_exec, symbol_flag_high, See,
};
use ppmd_rust::units::{UnitTables, NUM_INDEXES};
use ppmd_rust::{
    ppmd_get_mean, ppmd_get_mean_spec, ppmd_update_prob_0, ppmd_update_prob_1, RestoreMethod,
    PPMD_BIN_SCALE,
};

#[test]
fn get_mean_values() {
    assert_eq!(ppmd_get_mean(0), 0);
    assert_eq!(ppmd_get_mean(95), 0);
    assert_eq!(ppmd_get_mean(96), 1);
    assert_eq!(ppmd_get_mean(16383), 128);
    assert_eq!(ppmd_get_mean_spec(1000, 7, 2), (1000 + 32) >> 7);
    assert_eq!(ppmd_get_mean_spec(1000, 4, 0), (1000 + 16) >> 4);
}

#[test]
fn update_prob_values() {
    assert_eq!(ppmd_update_prob_1(16383), 16383 - 128);
    assert_eq!(ppmd_update_prob_0(16383), 16383);
    assert_eq!(ppmd_update_prob_1(1), 1);
    assert_eq!(ppmd_update_prob_0(1), 129);
    assert_eq!(ppmd_update_prob_0(1000), 1000 + 128 - 8);
}

#[test]
fn binary_probabilities_stay_in_scale() {
    for p in 1..PPMD_BIN_SCALE {
        let hit = ppmd_update_prob_0(p);
        let miss = ppmd_update_prob_1(p);
        assert!(p <= hit && hit < PPMD_BIN_SCALE);
        assert!(0 < miss && miss <= p);
        assert_eq!(hit, miss + 128);
    }
}

#[test]
fn size_classes_round_trip() {
    let t = UnitTables::new();
    let mut prev = 0;
    for i in 0..NUM_INDEXES {
        let nu = t.units(i);
        assert!(nu > prev);
        prev = nu;
        assert_eq!(t.index(nu), i);
    }
    assert_eq!(prev, 128);
    assert_eq!(t.units(NUM_INDEXES), 0);
    for nu in 1..=128u32 {
        let i = t.index(nu);
        assert!(t.units(i) >= nu);
        if i > 0 {
            assert!(t.units(i - 1) < nu);
        }
    }
    assert_eq!(t.index(0), 0);
    assert_eq!(t.index(129), NUM_INDEXES - 1);
    assert_eq!(t.units(0), 1);
    assert_eq!(t.units(4), 6);
    assert_eq!(t.units(8), 15);
    assert_eq!(t.units(12), 28);
}

#[test]
fn new_context_frequencies() {
    assert_eq!(new_context_freq_exec(10, 60), 1);
    assert_eq!(new_context_freq_exec(10, 40), 2);
    assert_eq!(new_context_freq_exec(10, 0), 11);
    assert_eq!(new_context_freq_exec(10, 15), 1 + (10 + 30 - 3) / 15);
    assert_eq!(new_context_freq7_exec(10, 15), 2 + (20 + 15 - 1) / 30);
    assert_eq!(new_context_freq7_exec(10, 40), 2);
}

#[test]
fn added_symbol_frequencies() {
    // cf = 2 * (10 + 6) * 3 = 96, sf = 20 + 10 = 30: 96 >= 4 * 30? no; 96 > 30.
    assert_eq!(added_symbol_freq_exec(10, 20, 3), (2, 14));
    assert_eq!(added_symbol_freq7_exec(10, 20, 3), (2, 13));
    // cf = 2 * 16 * 20 = 640 >= 6 * 30: f = 4 + [640 > 270] + [640 > 360] + [640 > 450] = 7.
    assert_eq!(added_symbol_freq_exec(10, 20, 20), (7, 17));
    assert_eq!(added_symbol_freq7_exec(10, 20, 20), (7, 17));
}

#[test]
fn see_updates() {
    let see = See { summ: 100, shift: 3, count: 1 };
    let (after, r) = see_estimate_exec(see);
    assert_eq!(r, 12);
    assert_eq!(after.summ, 88);
    let (_, r0) = see_estimate_exec(See { summ: 3, shift: 4, count: 5 });
    assert_eq!(r0, 1);
    let hit = see_after_hit_exec(see);
    assert_eq!((hit.summ, hit.shift, hit.count), (200, 4, 24));
    let hit = see_after_hit_exec(See { summ: 100, shift: 3, count: 5 });
    assert_eq!((hit.summ, hit.shift, hit.count), (100, 3, 4));
    let hit = see_after_hit_exec(See { summ: 100, shift: 7, count: 5 });
    assert_eq!((hit.summ, hit.shift, hit.count), (100, 7, 5));
}

#[test]
fn symbol_flags_and_tables() {
    assert_eq!(symbol_flag_exec(0x3F), 0);
    assert_eq!(symbol_flag_exec(0x40), 8);
    assert_eq!(symbol_flag_high(0xFF), 16);
    assert_eq!(symbol_flag_high(0), 0);
    assert_eq!(exp_escape(0), 25);
    assert_eq!(exp_escape(5), 5);
    assert_eq!(exp_escape(11), 3);
    assert_eq!(exp_escape(100), 2);
    assert_eq!(init_bin_esc(0), 0x3CDD);
    assert_eq!(init_bin_esc(7), 0x6051);
}

#[test]
fn restore_method_conversions() {
    assert_eq!(RestoreMethod::from(0u8), RestoreMethod::Restart);
    assert_eq!(RestoreMethod::from(1u16), RestoreMethod::CutOff);
    assert_eq!(RestoreMethod::from(2u32), RestoreMethod::Unsupported);
    assert_eq!(RestoreMethod::from(1u64), RestoreMethod::CutOff);
    assert_eq!(RestoreMethod::from(0u128), RestoreMethod::Restart);
    assert_eq!(RestoreMethod::from(7usize), RestoreMethod::Unsupported);
    assert_eq!(RestoreMethod::from(-1i8), RestoreMethod::Unsupported);
    assert_eq!(RestoreMethod::from(1i16), RestoreMethod::CutOff);
    assert_eq!(RestoreMethod::from(0i32), RestoreMethod::Restart);
    assert_eq!(RestoreMethod::from(1i64), RestoreMethod::CutOff);
    assert_eq!(RestoreMethod::from(-5i128), RestoreMethod::Unsupported);
    assert_eq!(RestoreMethod::from(0isize), RestoreMethod::Restart);
}
