use hllset::content_addr::{is_valid_prefix, SYSTEM_PREFIX, VALID_PREFIXES};
use hllset::hashing::{
    hash_to_position, murmur3_hash, murmur3_hash_seeded, sha1_hex, token_to_position, BITS_PER_REG,
    M, P, TOTAL_BITS,
};
use hllset::module::{
    input_port_in_range, module_ports, output_port_in_range, ModuleKind, ModulePorts, MODULE_KINDS,
};
use hllset::stream::Stream;
use hllset::token::{
    parse_token_id, parse_token_id_le, token_in_bytes, token_in_bytes_le, TokenId,
};
use hllset::{CONTRACT_VERSION, PROTOCOL_VERSION};

#[test]
fn soldered_geometry_is_pinned() {
    assert_eq!(P, 10);
    assert_eq!(M, 1024);
    assert_eq!(BITS_PER_REG, 32);
    assert_eq!(TOTAL_BITS, 32_768);
}

#[test]
fn murmur3_matches_python_mmh3_known_answers() {
    assert_eq!(murmur3_hash(b"tid0"), 2_892_634_914_804_110_692);
    assert_eq!(murmur3_hash(b"hello"), 14_688_674_573_012_802_306);
    assert_eq!(murmur3_hash_seeded(b"x", 1), 4_758_147_062_373_591_632);
}

#[test]
fn seeded_zero_equals_unseeded() {
    assert_eq!(murmur3_hash(b"test"), murmur3_hash_seeded(b"test", 0));
    assert_ne!(
        murmur3_hash_seeded(b"x", 0),
        murmur3_hash_seeded(b"x", 1),
        "seeds differ"
    );
}

#[test]
fn sha1_hex_is_40_lowercase() {
    assert_eq!(sha1_hex(b"hello").len(), 40);
    assert!(sha1_hex(b"hello").chars().all(|c| c.is_ascii_hexdigit()));
    assert_eq!(sha1_hex(b"hello"), "aaf4c61ddcc5e8a2dabede0f3b482cd9aea9434d");
}

#[test]
fn hash_to_position_matches_core_rule() {
    assert_eq!(hash_to_position(0), (0, 31));
    let hash = (1023u64) | (1u64 << 10);
    assert_eq!(hash_to_position(hash), (1023, 0));
}

#[test]
fn notebook_08_collision_pair_is_pinned() {
    assert_eq!(
        token_to_position(&262u32.to_le_bytes()),
        token_to_position(&48_300u32.to_le_bytes())
    );
    assert_eq!(token_to_position(&262u32.to_le_bytes()), (759, 0));
}

#[test]
fn port_table_is_pinned() {
    assert_eq!(
        module_ports(ModuleKind::Slice),
        ModulePorts {
            inputs: 1,
            outputs: 1
        }
    );
    assert_eq!(
        module_ports(ModuleKind::Renorm),
        ModulePorts {
            inputs: 1,
            outputs: 1
        }
    );
    assert_eq!(
        module_ports(ModuleKind::Gate),
        ModulePorts {
            inputs: 1,
            outputs: 1
        }
    );
    assert_eq!(
        module_ports(ModuleKind::Ground),
        ModulePorts {
            inputs: 1,
            outputs: 2
        }
    );
    assert_eq!(
        module_ports(ModuleKind::Experts),
        ModulePorts {
            inputs: 2,
            outputs: 1
        }
    );
    assert_eq!(
        module_ports(ModuleKind::Merge),
        ModulePorts {
            inputs: 2,
            outputs: 1
        }
    );
}

#[test]
fn port_range_helpers_match_table() {
    for kind in MODULE_KINDS {
        let ports = module_ports(kind);
        assert!(!input_port_in_range(kind, ports.inputs));
        assert!(!output_port_in_range(kind, ports.outputs));
        assert!(input_port_in_range(kind, ports.inputs - 1));
        assert!(output_port_in_range(kind, ports.outputs - 1));
    }
}

#[test]
fn transfer_only_when_both_asserted() {
    let s = Stream {
        data: 7u32,
        valid: true,
        ready: false,
    };
    assert!(!s.fire());
    assert!(s.stalled());

    let s = Stream {
        data: 7u32,
        valid: false,
        ready: true,
    };
    assert!(!s.fire());
    assert!(!s.stalled());

    let s = Stream {
        data: 7u32,
        valid: true,
        ready: true,
    };
    assert!(s.fire());
}

#[test]
fn producer_stalls_while_consumer_not_ready() {
    let mut next_value = 0u32;
    let mut consumed = Vec::new();

    for cycle in 0..5u32 {
        let consumer_ready = cycle >= 3;
        let beat = Stream {
            data: next_value,
            valid: true,
            ready: consumer_ready,
        };
        if beat.fire() {
            consumed.push(beat.data);
            next_value += 1;
        }
    }

    assert_eq!(consumed, vec![0, 1], "transfers only in cycles 3 and 4");
    assert_eq!(next_value, 2, "producer stalled for the first 3 cycles");
}

#[test]
fn map_preserves_handshake_flags() {
    let s = Stream {
        data: 3u32,
        valid: true,
        ready: false,
    };
    let m = s.map(|d| d * 2);
    assert_eq!(m.data, 6);
    assert!(m.valid);
    assert!(!m.ready);
}

#[test]
fn token_in_bytes_is_tid_n() {
    assert_eq!(token_in_bytes(0), b"tid0");
    assert_eq!(token_in_bytes(7), b"tid7");
    assert_eq!(token_in_bytes(50256), b"tid50256");
    assert_eq!(
        token_in_bytes(u32::MAX),
        format!("tid{}", u32::MAX).into_bytes()
    );
}

#[test]
fn token_in_bytes_le_is_4_byte_little_endian() {
    assert_eq!(token_in_bytes_le(44), [44, 0, 0, 0]);
    assert_eq!(token_in_bytes_le(0x0102_0304), [4, 3, 2, 1]);
    assert_eq!(token_in_bytes_le(u32::MAX), [255, 255, 255, 255]);
}

#[test]
fn parsers_are_the_inverse_of_the_inscriptions() {
    assert_eq!(parse_token_id(b"tid0"), Some(0));
    assert_eq!(parse_token_id(b"tid50256"), Some(50256));
    assert_eq!(parse_token_id(b"token"), None);
    assert_eq!(parse_token_id_le(&token_in_bytes_le(42)), Some(42));
    assert_eq!(parse_token_id_le(b"tid50256"), None, "not 4 bytes");
}

#[test]
fn token_id_is_u32() {
    assert_eq!(TokenId::BITS, 32);
}

#[test]
fn token_ids_out_of_range_do_not_parse() {
    assert_eq!(parse_token_id(b"tid4294967295"), Some(u32::MAX));
    assert_eq!(parse_token_id(b"tid4294967296"), None);
    assert_eq!(parse_token_id(b"tid"), None);
    assert_eq!(parse_token_id(b"tid1x"), None);
}

#[test]
fn versions_and_prefixes() {
    assert_eq!((PROTOCOL_VERSION, CONTRACT_VERSION), (1, 2));
    assert_eq!(SYSTEM_PREFIX, "system:");
    assert_eq!(VALID_PREFIXES.len(), 10);
    assert!(VALID_PREFIXES.iter().all(|p| is_valid_prefix(p)));
    assert!(!is_valid_prefix("system") && !is_valid_prefix("oh"));
}
