//! SSA construction.

use std::collections::BTreeSet;

use pcode_ir::{AddressSpaceId, PcodeOp, Varnode};
use windydec::ssa::cfg::{build_idom, dominance_frontier, iterated_df};
use windydec::ssa::lower::{resolve_op, value_location};
use windydec::ssa::rename::rename;
use windydec::ssa::{collect_def_blocks, FlatOp, Location, SsaVar};


#[test]
fn unique_defs_are_not_phi_candidates() {
    let unique = Location::Unique {
        instruction_va: 0x1400_0010,
        offset: 0x40,
        size: 8,
    };
    let flat = vec![vec![FlatOp {
        va: 0x1400_0010,
        op: PcodeOp::Copy {
            out: Varnode::unique(0x40, 8),
            input: Varnode::constant(1, 8),
        },
        def: Some(unique.clone()),
        uses: Vec::new(),
    }]];

    let defs = collect_def_blocks(&flat, 1);
    assert!(
        !defs.contains_key(&unique),
        "instruction-scoped Unique values must not enter phi placement"
    );
}



// Build a tiny synthetic CFG: entry -> {B, C}; B -> D; C -> D.
// Block ids: 0 = entry, 1 = B, 2 = C, 3 = D (the join).
fn diamond() -> (Vec<Vec<u32>>, Vec<Vec<u32>>, u32) {
    let succ = vec![
        vec![1, 2], // 0 entry
        vec![3],    // 1 B
        vec![3],    // 2 C
        vec![],     // 3 D
    ];
    let pred = vec![
        vec![],     // 0
        vec![0],    // 1
        vec![0],    // 2
        vec![1, 2], // 3
    ];
    (succ, pred, 0)
}

#[test]
fn dominator_diamond() {
    let (succ, pred, entry) = diamond();
    let idom = build_idom(&succ, &pred, entry);
    // Entry dominates itself.
    assert_eq!(idom[0], Some(0));
    // B and C are dominated by entry.
    assert_eq!(idom[1], Some(0));
    assert_eq!(idom[2], Some(0));
    // The join D is dominated by entry (the only common dominator).
    assert_eq!(idom[3], Some(0), "join must be dominated by entry");

    let df = dominance_frontier(&succ, &pred, &idom);
    // The join D appears in the DF of both B and C (the predecessors with a
    // second incoming edge). D's own DF is empty.
    assert!(df[1].contains(&3), "DF(B) should contain the join D");
    assert!(df[2].contains(&3), "DF(C) should contain the join D");
    assert!(!df[3].contains(&3), "DF(D) should be empty");

    // Iterated DF of {B, C} == {D} -> that is where a phi for a variable
    // defined in B and C must be placed.
    let mut seed = BTreeSet::new();
    seed.insert(1u32);
    seed.insert(2u32);
    let idf = iterated_df(&df, &seed);
    assert_eq!(idf, BTreeSet::from([3u32]));
}



const INSN_A: u64 = 0x1400_0010;

const INSN_B: u64 = 0x1400_0014;

#[test]
fn unique_value_locations_are_scoped_by_instruction() {
    let temp = Varnode::unique(0x40, 8);
    assert_eq!(
        value_location(temp, INSN_A),
        Some(Location::Unique {
            instruction_va: INSN_A,
            offset: 0x40,
            size: 8,
        })
    );
    assert_ne!(value_location(temp, INSN_A), value_location(temp, INSN_B));
}

#[test]
fn generic_ops_track_unique_defs_and_uses() {
    let temp = Varnode::unique(0x40, 8);
    let producer = PcodeOp::IntAdd {
        out: temp,
        left: Varnode::register(0x08, 8),
        right: Varnode::constant(1, 8),
    };
    let (def, uses) = resolve_op(&producer, INSN_A, &[], &[]);
    assert_eq!(
        def,
        Some(Location::Unique {
            instruction_va: INSN_A,
            offset: 0x40,
            size: 8,
        })
    );
    assert_eq!(
        uses,
        vec![Location::Register { base_offset: 0x08 }],
        "ordinary register use remains available beside the Unique def"
    );

    let consumer = PcodeOp::Copy {
        out: Varnode::register(0x00, 8),
        input: temp,
    };
    let (def, uses) = resolve_op(&consumer, INSN_A, &[], &[]);
    assert_eq!(def, Some(Location::Register { base_offset: 0x00 }));
    assert_eq!(
        uses,
        vec![Location::Unique {
            instruction_va: INSN_A,
            offset: 0x40,
            size: 8,
        }]
    );
}

#[test]
fn load_keeps_memory_token_before_unique_pointer_use() {
    let ptr = Varnode::unique(0x80, 8);
    let load = PcodeOp::Load {
        space: AddressSpaceId::Ram,
        ptr,
        out: Varnode::register(0x00, 8),
    };
    let (_, uses) = resolve_op(&load, INSN_A, &[], &[]);
    assert_eq!(uses.first(), Some(&Location::RawRam));
    assert_eq!(
        uses.get(1),
        Some(&Location::Unique {
            instruction_va: INSN_A,
            offset: 0x80,
            size: 8,
        })
    );
}



#[test]
fn unique_values_are_renamed_only_from_intra_instruction_defs() {
    let instruction_va = 0x1400_0010;
    let temporary = Location::Unique {
        instruction_va,
        offset: 0x40,
        size: 8,
    };
    let flat = vec![vec![
        FlatOp {
            va: instruction_va,
            op: PcodeOp::Copy {
                out: Varnode::unique(0x40, 8),
                input: Varnode::register(0x08, 8),
            },
            def: Some(temporary.clone()),
            uses: vec![Location::Register { base_offset: 0x08 }],
        },
        FlatOp {
            va: instruction_va,
            op: PcodeOp::Copy {
                out: Varnode::register(0x00, 8),
                input: Varnode::unique(0x40, 8),
            },
            def: Some(Location::Register { base_offset: 0x00 }),
            uses: vec![temporary.clone()],
        },
    ]];

    let (phis, renamed) = rename(&flat, &[vec![]], &[vec![]], &[vec![]], &[None]);
    assert!(phis[0].is_empty());
    assert_eq!(
        renamed[0][0].def,
        Some(SsaVar {
            location: temporary.clone(),
            version: 1,
        }),
        "Unique def must start at version 1, not an entry-seeded version"
    );
    assert_eq!(
        renamed[0][1].uses,
        vec![SsaVar {
            location: temporary,
            version: 1,
        }],
        "same-instruction consumer must resolve to the Unique producer"
    );
}
