use panopticon_core::Architecture;
use panopticon_core::BasicBlockIndex;
use panopticon_core::CfgNode;
use panopticon_core::Constant;
use panopticon_core::Error;
use panopticon_core::Function;
use panopticon_core::FunctionKind;
use panopticon_core::Guard;
use panopticon_core::Match;
use panopticon_core::Mnemonic;
use panopticon_core::OpaqueLayer;
use panopticon_core::Operation;
use panopticon_core::Region;
use panopticon_core::Rvalue;
use panopticon_core::Statement;
use panopticon_core::Value;
use panopticon_core::Variable;

/// Decodes every byte `b` into a one-byte mnemonic `op<b>` that falls
/// through to the next address; byte 9 performs an indirect call, byte 8
/// a call operation on a variable.
enum FallArch {}

impl Architecture for FallArch {
    type Configuration = ();
    fn decode(region: &Region, addr: u64, _config: &()) -> Result<Match, Error> {
        let b = region.read(addr).ok_or(Error::NoEntryBlock)?;
        let mne = Mnemonic::new(addr..addr + 1, &format!("op{}", b));
        let stmts = if b == 9 {
            vec![Statement::IndirectCall { target: Value::val(7, 64).unwrap() }]
        } else if b == 8 {
            vec![Statement::Expression {
                op: Operation::Call(Value::var("callee".to_string(), 64, None).unwrap()),
                result: Variable::new("r".to_string(), 32, None).unwrap(),
            }]
        } else {
            vec![Statement::Expression {
                op: Operation::Move(Value::val(b as u64, 32).unwrap()),
                result: Variable::new("r".to_string(), 32, None).unwrap(),
            }]
        };
        Ok(Match {
            mnemonics: vec![(mne, stmts)],
            jumps: vec![(addr, Rvalue::new_u64(addr + 1), Guard::always())],
        })
    }
}

fn region(data: Vec<u8>) -> Region {
    Region::new("".to_string(), OpaqueLayer::wrap(data))
}

#[test]
fn default_name_is_hex() {
    let mut data = vec![0u8; 256];
    data[255] = 1;
    let reg = region(data);
    let func = Function::new::<FallArch>((), 255, &reg, None).unwrap();
    assert_eq!(func.name, "func_ff");
    assert_eq!(func.entry_address(), 255);

    let reg2 = region(vec![0u8; 32]);
    let func2 = Function::new::<FallArch>((), 18, &reg2, None).unwrap();
    assert_eq!(func2.name, "func_12");
}

#[test]
fn explicit_name_and_uuid() {
    let reg = region(vec![0, 0, 0]);
    let id = uuid::Uuid::new_v4();
    let func =
        Function::with_uuid::<FallArch>(0, id, &reg, Some("main".to_string()), ()).unwrap();
    assert_eq!(func.name(), "main");
    assert_eq!(*func.uuid(), id);

    let mut func2 = Function::new::<FallArch>((), 0, &reg, None).unwrap();
    let id2 = uuid::Uuid::new_v4();
    func2.set_uuid(id2);
    assert_eq!(*func2.uuid(), id2);
}

#[test]
fn value_construction_failures() {
    assert_eq!(Constant::new(1, 0), Err(Error::ValueConstructionFailure));
    assert!(Variable::new("x".to_string(), 0, None).is_err());
    assert!(Value::val(3, 0).is_err());
    assert!(Value::var("x".to_string(), 0, None).is_err());
    assert_eq!(Constant::new(5, 8).unwrap(), Constant { value: 5, bits: 8 });
    assert_eq!(
        Variable::new("x".to_string(), 8, Some(2)).unwrap(),
        Variable { name: "x".to_string(), bits: 8, subscript: Some(2) }
    );
}

#[test]
fn guards_and_rvalues() {
    assert_eq!(Guard::always(), Guard::True);
    assert_eq!(Guard::never(), Guard::False);
    if let Rvalue::Constant { value, size } = Rvalue::new_u64(9) {
        assert_eq!((value, size), (9, 64));
    } else {
        unreachable!()
    }
    if let Rvalue::Constant { value, size } = Rvalue::new_u32(7) {
        assert_eq!((value, size), (7, 32));
    } else {
        unreachable!()
    }
}

#[test]
fn plt_promotion_and_aliases() {
    let reg = region(vec![0, 0]);
    let mut func = Function::new::<FallArch>((), 0, &reg, None).unwrap();
    assert!(matches!(func.kind(), FunctionKind::Regular));
    assert!(func.aliases().is_empty());

    func.add_alias("start".to_string());
    assert_eq!(func.aliases().len(), 1);
    assert_eq!(func.aliases()[0], "start");

    func.set_plt("memcpy", 0x4000);
    assert_eq!(func.name(), "memcpy@plt");
    assert!(matches!(
        func.kind(),
        FunctionKind::Stub { name, plt_address: 0x4000 } if name == "memcpy"
    ));
    assert_eq!(func.aliases().len(), 2);
    assert_eq!(func.aliases()[1], "func_0");
}

#[test]
fn address_queries() {
    let reg = region(vec![0, 0, 0, 0]);
    let func = Function::new::<FallArch>((), 0, &reg, None).unwrap();
    assert_eq!(func.first_address(), 0);
    assert_eq!(func.last_address(), 4);
    assert!(func.contains(0));
    assert!(func.contains(3));
    assert!(!func.contains(4));
    assert!(!func.contains(100));
}

#[test]
fn collected_calls_and_size() {
    let reg = region(vec![0, 9, 8, 0]);
    let func = Function::new::<FallArch>((), 0, &reg, None).unwrap();
    assert_eq!(func.bitcode_size(), 4);
    let calls = func.collect_calls();
    assert_eq!(calls.len(), 2);
    if let Rvalue::Constant { value, size } = &calls[0] {
        assert_eq!((*value, *size), (7, 64));
    } else {
        unreachable!()
    }
    if let Rvalue::Variable { name, size, .. } = &calls[1] {
        assert_eq!(name, "callee");
        assert_eq!(*size, 64);
    } else {
        unreachable!()
    }
}

/// Byte 0 branches to addresses 1 and 2; every byte's mnemonic holds one
/// indirect call whose constant target encodes the byte's address.
enum BranchCallArch {}

impl Architecture for BranchCallArch {
    type Configuration = ();
    fn decode(region: &Region, addr: u64, _config: &()) -> Result<Match, Error> {
        region.read(addr).ok_or(Error::NoEntryBlock)?;
        let mne = Mnemonic::new(addr..addr + 1, &format!("c{}", addr));
        let stmts = vec![Statement::IndirectCall { target: Value::val(100 + addr, 64).unwrap() }];
        let jumps = if addr == 0 {
            vec![
                (0, Rvalue::new_u64(1), Guard::never()),
                (0, Rvalue::new_u64(2), Guard::always()),
            ]
        } else {
            vec![]
        };
        Ok(Match { mnemonics: vec![(mne, stmts)], jumps })
    }
}

#[test]
fn collect_calls_in_block_order() {
    let reg = region(vec![0, 0, 0]);
    let func = Function::new::<BranchCallArch>((), 0, &reg, None).unwrap();
    assert_eq!(func.basic_blocks().len(), 3);
    let calls = func.collect_calls();
    let got: Vec<u64> = calls
        .iter()
        .map(|c| match c {
            Rvalue::Constant { value, .. } => *value,
            _ => unreachable!(),
        })
        .collect();
    // Calls come back in block-vector (address) order, even though the
    // stored IL stream lays the entry block out last (post-order).
    assert_eq!(got, vec![100, 101, 102]);
}

#[test]
fn rewrite_rejects_gaps() {
    let reg = region(vec![0, 0, 0]);
    let mut func = Function::new::<FallArch>((), 0, &reg, None).unwrap();
    let before = func.statements(..);
    let r = func.rewrite(|mut blocks| {
        // Tear an address gap into the first block.
        let first = blocks[0][0].0.area.start;
        blocks[0][0].0.area = first..first;
        Ok(blocks)
    });
    assert!(matches!(r, Err(Error::NonContinuousBlock { .. })));
    // The function is unchanged.
    let after = func.statements(..);
    assert_eq!(before.len(), after.len());
}

#[test]
fn rewrite_identity_keeps_statements() {
    let reg = region(vec![0, 1, 2]);
    let mut func = Function::new::<FallArch>((), 0, &reg, None).unwrap();
    let nblocks = func.basic_blocks().len();
    let mut before = Vec::new();
    for b in 0..nblocks {
        before.push(func.statements(BasicBlockIndex::new(b)).len());
    }
    func.rewrite(|blocks| Ok(blocks)).unwrap();
    for b in 0..nblocks {
        assert_eq!(func.statements(BasicBlockIndex::new(b)).len(), before[b]);
    }
}

#[test]
fn editable_view_matches_blocks() {
    let reg = region(vec![0, 1]);
    let func = Function::new::<FallArch>((), 0, &reg, None).unwrap();
    let view = func.editable_blocks();
    assert_eq!(view.len(), func.basic_blocks().len());
    assert_eq!(view[0].len(), 2);
    assert_eq!(view[0][0].0.opcode, "op0");
    assert_eq!(view[0][0].1.len(), 1);
}

#[test]
fn resolve_without_match() {
    let reg = region(vec![0]);
    let mut func = Function::new::<FallArch>((), 0, &reg, None).unwrap();
    assert!(!func.resolve_indirect_jump(
        Variable { name: "Z".to_string(), bits: 1, subscript: None },
        Constant::new(1, 1).unwrap()
    ));
    assert!(func.indirect_jumps().is_empty());
}

#[test]
fn dot_rendering() {
    let reg = region(vec![0]);
    let func = Function::new::<FallArch>((), 0, &reg, None).unwrap();
    let dot = func.to_dot();
    assert!(dot.starts_with("digraph cfg {\n"));
    assert!(dot.contains("n0 [label=\"block 0\"]"));
    assert!(dot.contains("n1 [label=\"unresolved target\"]"));
    assert!(dot.contains("n0 -> n1"));
    assert!(dot.ends_with("}\n"));
}

/// Byte 0 branches to address 1 under the never guard, to the outside
/// address 5, and again to address 1 under the always guard.
enum TwoJumpArch {}

impl Architecture for TwoJumpArch {
    type Configuration = ();
    fn decode(region: &Region, addr: u64, _config: &()) -> Result<Match, Error> {
        region.read(addr).ok_or(Error::NoEntryBlock)?;
        let mne = Mnemonic::new(addr..addr + 1, "j");
        let jumps = if addr == 0 {
            vec![
                (addr, Rvalue::new_u64(1), Guard::never()),
                (addr, Rvalue::new_u64(5), Guard::always()),
                (addr, Rvalue::new_u64(1), Guard::always()),
            ]
        } else {
            vec![]
        };
        Ok(Match { mnemonics: vec![(mne, vec![])], jumps })
    }
}

#[test]
fn repeated_edge_keeps_last_guard() {
    let reg = region(vec![0, 0]);
    let func = Function::new::<TwoJumpArch>((), 0, &reg, None).unwrap();
    // Two blocks and one unresolved target; the duplicate jump collapses
    // to one block edge whose guard is the one upserted last.
    assert_eq!(func.cfg().node_count(), 3);
    assert_eq!(func.cfg().edge_count(), 2);
    let mut b0 = None;
    let mut b1 = None;
    for n in func.cfg().node_indices() {
        if let Some(CfgNode::BasicBlock(bb)) = func.cfg().node_weight(n) {
            if func.basic_block(*bb).area() == (0..1) {
                b0 = Some(n);
            } else {
                b1 = Some(n);
            }
        }
    }
    let e = func.cfg().find_edge(b0.unwrap(), b1.unwrap()).unwrap();
    assert_eq!(func.cfg().edges[e.index].guard, Guard::True);
}
