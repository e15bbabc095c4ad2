use taper::hash::hash_bytes;
use taper::hash::hash_i64;
use taper::hash::hash_i64_on;
use taper::hash::hash_mix;
use taper::hash::Machine;

#[test]
fn test_hash_deterministic() {
    assert_eq!(hash_i64(42), hash_i64(42));
    assert_ne!(hash_i64(42), hash_i64(43));
}

#[test]
fn test_hash_bytes_deterministic() {
    assert_eq!(hash_bytes(b"Beijing"), hash_bytes(b"Beijing"));
    assert_ne!(hash_bytes(b"Beijing"), hash_bytes(b"Shanghai"));
}

#[test]
fn test_hash_mix() {
    let h1 = hash_i64(42);
    let h2 = hash_i64(77);
    let mixed = hash_mix(h1, h2);
    assert_ne!(mixed, h1);
    assert_ne!(mixed, h2);
}

#[test]
fn hashes_have_their_known_values() {
    assert_eq!(hash_i64(0), 0x73d7_4d75);
    assert_eq!(hash_i64(42), 0xae94_d678);
    assert_eq!(hash_i64(43), 0xe7a8_ab5f);
    assert_eq!(hash_i64(-1), 0xb798_b438);
    assert_eq!(hash_bytes(b""), 0xcbf2_9ce4_8422_2325);
    assert_eq!(hash_bytes(b"a"), 0xaf63_dc4c_8601_ec8c);
    assert_eq!(hash_bytes(b"Beijing"), 0xaf06_8e72_f21f_c6a5);
    assert_eq!(hash_mix(1, 2), 0x9e37_79b9_7f4a_7c56);
    assert_eq!(hash_mix(0xae94_d678, 0x43cd_7dd7), 0x9e37_79e5_3d66_1bf2);
}

#[test]
fn each_kind_of_machine_has_its_hash() {
    for value in [0, 42, -1, i64::MIN] {
        assert_eq!(hash_i64_on(Machine::X86, value), hash_i64(value));
    }
    assert_eq!(hash_i64_on(Machine::Arm, 0), 0x9add_2096);
    assert_eq!(hash_i64_on(Machine::Arm, 42), 0xf26b_5e08);
    assert_eq!(hash_i64_on(Machine::Arm, -1), 0xdebb_20e3);
    assert_eq!(hash_i64_on(Machine::Other, 0), 0);
    assert_eq!(hash_i64_on(Machine::Other, 42), 0x5e77_c80c_35e2_747e);
    assert_eq!(hash_i64_on(Machine::Other, -1), 0xae83_3e48_765e_cb23);
}
