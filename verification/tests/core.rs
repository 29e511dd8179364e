use panopticon_core::Architecture;
use panopticon_core::BasicBlockIndex;
use panopticon_core::CfgNode;
use panopticon_core::Constant;
use panopticon_core::Error;
use panopticon_core::Function;
use panopticon_core::Guard;
use panopticon_core::Match;
use panopticon_core::Mnemonic;
use panopticon_core::OpaqueLayer;
use panopticon_core::Operation;
use panopticon_core::Region;
use panopticon_core::Rvalue;
use panopticon_core::Statement;
use panopticon_core::Value;
use panopticon_core::Variable;

/// A jump a table rule performs: to an absolute address, relative to the
/// mnemonic's start, or to a symbolic variable.
#[derive(Clone)]
enum J {
    Abs(u64),
    Rel(u64),
    Var(&'static str),
}

/// One decode rule: a token sequence to match, the opcode, the jumps and
/// the raw IL statements of the decoded mnemonic.
#[derive(Clone)]
struct Rule {
    tokens: Vec<u16>,
    opcode: &'static str,
    jumps: Vec<J>,
    stmts: Vec<Statement>,
}

fn rule(tokens: &[u16], opcode: &'static str, jumps: Vec<J>) -> Rule {
    Rule { tokens: tokens.to_vec(), opcode, jumps, stmts: vec![] }
}

fn rule_il(tokens: &[u16], opcode: &'static str, jumps: Vec<J>, stmts: Vec<Statement>) -> Rule {
    Rule { tokens: tokens.to_vec(), opcode, jumps, stmts }
}

/// A table-driven architecture over one-byte tokens.
enum TableArch {}

/// The same over two-byte little-endian tokens.
enum WideArch {}

fn read_token(reg: &Region, addr: u64, width: u64) -> Option<u16> {
    if width == 1 {
        reg.read(addr).map(|b| b as u16)
    } else {
        let lo = reg.read(addr)? as u16;
        let hi = reg.read(addr + 1)? as u16;
        Some(lo | (hi << 8))
    }
}

fn table_decode(rules: &Vec<Rule>, width: u64, region: &Region, addr: u64) -> Result<Match, Error> {
    'rules: for r in rules {
        for (i, t) in r.tokens.iter().enumerate() {
            match read_token(region, addr + i as u64 * width, width) {
                Some(tok) if tok == *t => {}
                _ => continue 'rules,
            }
        }
        let len = r.tokens.len() as u64 * width;
        let mne = Mnemonic::new(addr..addr + len, r.opcode);
        let mut jumps = Vec::new();
        for j in &r.jumps {
            let tgt = match j {
                J::Abs(v) => Rvalue::Constant { value: *v, size: 64 },
                J::Rel(k) => Rvalue::Constant { value: addr + k, size: 64 },
                J::Var(n) => Rvalue::Variable {
                    name: n.to_string(),
                    size: 1,
                    subscript: None,
                    offset: 0,
                },
            };
            jumps.push((addr, tgt, Guard::always()));
        }
        return Ok(Match { mnemonics: vec![(mne, r.stmts.clone())], jumps });
    }
    Err(Error::NoEntryBlock)
}

impl Architecture for TableArch {
    type Configuration = Vec<Rule>;
    fn decode(region: &Region, addr: u64, config: &Vec<Rule>) -> Result<Match, Error> {
        table_decode(config, 1, region, addr)
    }
}

impl Architecture for WideArch {
    type Configuration = Vec<Rule>;
    fn decode(region: &Region, addr: u64, config: &Vec<Rule>) -> Result<Match, Error> {
        table_decode(config, 2, region, addr)
    }
}

fn region(data: Vec<u8>) -> Region {
    Region::new("".to_string(), OpaqueLayer::wrap(data))
}

#[test]
fn single_instruction() {
    let main = vec![rule(&[0], "A", vec![])];
    let reg = region(vec![0]);
    let func = Function::new::<TableArch>(main, 0, &reg, None).unwrap();

    assert_eq!(func.cfg().node_count(), 1);
    assert_eq!(func.cfg().edge_count(), 0);

    let node = func.cfg().node_indices()[0];
    assert!(if let Some(CfgNode::BasicBlock(_)) = func.cfg().node_weight(node) {
        true
    } else {
        false
    });

    assert_eq!(func.entry_address(), 0);
    assert_eq!(func.basic_blocks().len(), 1);
    assert_eq!(func.name, "func_0");

    let bbs = func.basic_blocks();
    let (bb_idx, bb) = (bbs[0].0, &bbs[0].1);
    assert_eq!(bb.area(), 0..1);
    assert_eq!(func.mnemonics(bb_idx).len(), 1);

    let mnes = func.mnemonics(bb_idx);
    let mne = &mnes[0].1;
    assert_eq!(mne.opcode, "A");
}

#[test]
fn single_block() {
    let main = vec![
        rule(&[0], "test0", vec![J::Rel(1)]),
        rule(&[1], "test1", vec![J::Rel(1)]),
        rule(&[2], "test2", vec![J::Rel(1)]),
        rule(&[3], "test3", vec![J::Rel(1)]),
        rule(&[4], "test4", vec![J::Rel(1)]),
        rule(&[5], "test5", vec![J::Rel(1)]),
    ];
    let reg = region(vec![0, 1, 2, 3, 4, 5]);
    let func = Function::new::<TableArch>(main, 0, &reg, None).unwrap();

    assert_eq!(func.cfg().node_count(), 2);
    assert_eq!(func.cfg().edge_count(), 1);

    for n in func.cfg().node_indices() {
        match func.cfg().node_weight(n) {
            Some(CfgNode::BasicBlock(bb)) => {
                let bb = *bb;
                let mnes = func.mnemonics(bb);
                assert_eq!(mnes.len(), 6);
                assert_eq!(mnes[0].1.opcode, "test0");
                assert_eq!(mnes[0].1.area, 0..1);
                assert_eq!(mnes[1].1.opcode, "test1");
                assert_eq!(mnes[1].1.area, 1..2);
                assert_eq!(mnes[2].1.opcode, "test2");
                assert_eq!(mnes[2].1.area, 2..3);
                assert_eq!(mnes[3].1.opcode, "test3");
                assert_eq!(mnes[3].1.area, 3..4);
                assert_eq!(mnes[4].1.opcode, "test4");
                assert_eq!(mnes[4].1.area, 4..5);
                assert_eq!(mnes[5].1.opcode, "test5");
                assert_eq!(mnes[5].1.area, 5..6);
                assert_eq!(func.basic_block(bb).area(), 0..6);
            }
            Some(CfgNode::Value(Value::Constant(c))) => {
                assert_eq!(c.value, 6);
            }
            _ => unreachable!(),
        }
    }

    assert_eq!(func.entry_address(), 0);
    assert_eq!(func.basic_blocks().len(), 1);
    assert_eq!(func.name, "func_0");
}

#[test]
fn branch() {
    let main = vec![
        rule(&[0], "test0", vec![J::Abs(1), J::Abs(2)]),
        rule(&[1], "test1", vec![J::Abs(3)]),
        rule(&[2], "test2", vec![J::Abs(1)]),
    ];
    let reg = region(vec![0, 1, 2]);
    let func = Function::new::<TableArch>(main, 0, &reg, None).unwrap();

    assert_eq!(func.cfg().node_count(), 4);
    assert_eq!(func.cfg().edge_count(), 4);

    let mut bb0_vx = None;
    let mut bb1_vx = None;
    let mut bb2_vx = None;
    let mut ures_vx = None;

    for n in func.cfg().node_indices() {
        match func.cfg().node_weight(n) {
            Some(CfgNode::BasicBlock(bb_idx)) => {
                let bb_idx = *bb_idx;
                let bb = func.basic_block(bb_idx);
                let mnes = func.mnemonics(bb_idx);

                if bb.area.start == 0 {
                    assert_eq!(mnes.len(), 1);
                    assert_eq!(mnes[0].1.opcode, "test0");
                    assert_eq!(mnes[0].1.area, 0..1);
                    assert_eq!(bb.area(), 0..1);
                    bb0_vx = Some(n);
                } else if bb.area.start == 1 {
                    assert_eq!(mnes.len(), 1);
                    assert_eq!(mnes[0].1.opcode, "test1");
                    assert_eq!(mnes[0].1.area, 1..2);
                    assert_eq!(bb.area(), 1..2);
                    bb1_vx = Some(n);
                } else if bb.area.start == 2 {
                    assert_eq!(mnes.len(), 1);
                    assert_eq!(mnes[0].1.opcode, "test2");
                    assert_eq!(mnes[0].1.area, 2..3);
                    assert_eq!(bb.area(), 2..3);
                    bb2_vx = Some(n);
                } else {
                    unreachable!();
                }
            }
            Some(CfgNode::Value(Value::Constant(c))) => {
                assert_eq!(c.value, 3);
                ures_vx = Some(n);
            }
            _ => unreachable!(),
        }
    }

    assert!(ures_vx.is_some() && bb0_vx.is_some() && bb1_vx.is_some() && bb2_vx.is_some());

    let entry_bb = func.entry_point();
    assert_eq!(func.basic_block(entry_bb).node, bb0_vx.unwrap());
    assert_eq!(func.name, "func_0");
    assert!(func.cfg().find_edge(bb0_vx.unwrap(), bb1_vx.unwrap()).is_some());
    assert!(func.cfg().find_edge(bb0_vx.unwrap(), bb2_vx.unwrap()).is_some());
    assert!(func.cfg().find_edge(bb1_vx.unwrap(), ures_vx.unwrap()).is_some());
    assert!(func.cfg().find_edge(bb2_vx.unwrap(), bb1_vx.unwrap()).is_some());
}

#[test]
fn single_loop() {
    let main = vec![
        rule(&[0], "test0", vec![J::Abs(1)]),
        rule(&[1], "test1", vec![J::Abs(2)]),
        rule(&[2], "test2", vec![J::Abs(0)]),
    ];
    let reg = region(vec![0, 1, 2]);
    let func = Function::new::<TableArch>(main, 0, &reg, None).unwrap();

    assert_eq!(func.cfg().node_count(), 1);
    assert_eq!(func.cfg().edge_count(), 1);

    let vx = func.cfg().node_indices()[0];
    if let Some(CfgNode::BasicBlock(bb_idx)) = func.cfg().node_weight(vx) {
        let bb_idx = *bb_idx;
        let bb = func.basic_block(bb_idx);
        let mnes = func.mnemonics(bb_idx);

        if bb.area.start == 0 {
            assert_eq!(mnes.len(), 3);
            assert_eq!(mnes[0].1.opcode, "test0");
            assert_eq!(mnes[0].1.area, 0..1);
            assert_eq!(mnes[1].1.opcode, "test1");
            assert_eq!(mnes[1].1.area, 1..2);
            assert_eq!(mnes[2].1.opcode, "test2");
            assert_eq!(mnes[2].1.area, 2..3);
            assert_eq!(bb.area(), 0..3);
        } else {
            unreachable!();
        }
    }

    assert_eq!(func.name, "func_0".to_string());
    let entry_idx = func.entry_point();
    assert_eq!(func.basic_block(entry_idx).node, vx);
    assert!(func.cfg().find_edge(vx, vx).is_some());
}

#[test]
fn empty_function() {
    let main = vec![
        rule(&[0], "test0", vec![J::Abs(1)]),
        rule(&[1], "test1", vec![J::Abs(2)]),
        rule(&[2], "test2", vec![J::Abs(0)]),
    ];
    let reg = region(vec![]);
    assert!(Function::new::<TableArch>(main, 0, &reg, None).is_err());
}

#[test]
fn resolve_indirect() {
    let main = vec![
        rule(&[0], "test0", vec![J::Rel(1)]),
        rule(&[1], "test1", vec![J::Var("A")]),
        rule(&[2], "test2", vec![J::Rel(1)]),
        rule(&[3], "test3", vec![J::Rel(1)]),
    ];
    let reg = region(vec![0, 1, 2, 3, 4, 5]);
    let mut func = Function::new::<TableArch>(main.clone(), 0, &reg, None).unwrap();

    assert_eq!(func.cfg().node_count(), 2);
    assert_eq!(func.cfg().edge_count(), 1);

    for n in func.cfg().node_indices() {
        match func.cfg().node_weight(n) {
            Some(CfgNode::BasicBlock(bb)) => {
                assert_eq!(func.basic_block(*bb).area(), 0..2);
            }
            Some(CfgNode::Value(Value::Variable(v))) if v.name == "A" => {
                assert_eq!(v.bits, 1);
                assert_eq!(v.subscript, None);
            }
            a => unreachable!("got: {:?}", a),
        }
    }

    let unres = func.indirect_jumps();
    assert_eq!(unres.len(), 1);
    assert_eq!(unres[0], Variable { name: "A".into(), bits: 1, subscript: None });

    assert!(func.resolve_indirect_jump(
        Variable { name: "A".into(), bits: 1, subscript: None },
        Constant::new(2, 1).unwrap()
    ));
    assert!(func.extend::<TableArch>(main, &reg).is_ok());

    assert_eq!(func.cfg().node_count(), 2);
    assert_eq!(func.cfg().edge_count(), 1);

    for n in func.cfg().node_indices() {
        match func.cfg().node_weight(n) {
            Some(CfgNode::BasicBlock(bb)) => {
                assert_eq!(func.basic_block(*bb).area(), 0..4);
            }
            Some(CfgNode::Value(Value::Constant(c))) => {
                assert_eq!(c.value, 4);
            }
            _ => unreachable!(),
        }
    }

    let unres = func.indirect_jumps();
    assert_eq!(unres.len(), 0);
    assert!(!func.resolve_indirect_jump(
        Variable { name: "A".into(), bits: 1, subscript: Some(0) },
        Constant::new(2, 1).unwrap()
    ));
}

#[test]
fn entry_split() {
    let main = vec![
        rule(&[0], "test0", vec![J::Rel(1)]),
        rule(&[1], "test1", vec![J::Var("A")]),
    ];
    let reg = region(vec![0, 1]);
    let mut func = Function::new::<TableArch>(main.clone(), 0, &reg, None).unwrap();
    let unres = func.indirect_jumps();
    assert_eq!(unres.len(), 1);
    assert_eq!(unres[0], Variable { name: "A".into(), bits: 1, subscript: None });

    assert!(func.resolve_indirect_jump(
        Variable { name: "A".into(), bits: 1, subscript: None },
        Constant::new(1, 1).unwrap()
    ));
    assert!(func.extend::<TableArch>(main, &reg).is_ok());

    assert_eq!(func.cfg().node_count(), 2);
    assert_eq!(func.cfg().edge_count(), 1);

    let mut bb0_vx = None;
    let mut bb1_vx = None;

    for n in func.cfg().node_indices() {
        match func.cfg().node_weight(n) {
            Some(CfgNode::BasicBlock(bb)) => {
                if func.basic_block(*bb).area() == (1..2) {
                    bb1_vx = Some(n);
                } else if func.basic_block(*bb).area() == (0..1) {
                    bb0_vx = Some(n);
                } else {
                    unreachable!();
                }
            }
            _ => unreachable!(),
        }
    }

    assert!(bb0_vx.is_some() && bb1_vx.is_some());
    let entry_idx = func.entry_point();
    assert_eq!(func.basic_block(entry_idx).node, bb0_vx.unwrap());
}

#[test]
fn wide_token() {
    let reg = region(vec![0x11, 0x22, 0x33, 0x44, 0x55, 0x44]);
    let dec = vec![
        rule(&[0x2211], "A", vec![J::Rel(2)]),
        rule(&[0x4433], "B", vec![J::Rel(2), J::Rel(4)]),
        rule(&[0x4455], "C", vec![]),
    ];

    let func = Function::new::<WideArch>(dec, 0, &reg, None).unwrap();

    assert_eq!(func.cfg().node_count(), 3);
    assert_eq!(func.cfg().edge_count(), 2);

    let mut bb0_vx = None;
    let mut bb1_vx = None;

    for vx in func.cfg().node_indices() {
        match func.cfg().node_weight(vx) {
            Some(CfgNode::BasicBlock(bb_idx)) => {
                let bb_idx = *bb_idx;
                let bb = func.basic_block(bb_idx);
                let mnes = func.mnemonics(bb_idx);

                if bb.area.start == 0 {
                    assert_eq!(mnes.len(), 2);
                    assert_eq!(bb.area(), 0..4);
                    bb0_vx = Some(vx);
                } else if bb.area.start == 4 {
                    assert_eq!(mnes.len(), 1);
                    assert_eq!(bb.area(), 4..6);
                    bb1_vx = Some(vx);
                } else {
                    unreachable!();
                }
            }
            Some(CfgNode::Value(Value::Constant(c))) => {
                assert_eq!(c.value, 6);
            }
            _ => unreachable!(),
        }
    }

    assert!(bb0_vx.is_some() && bb1_vx.is_some());
    let entry_idx = func.entry_point();
    assert_eq!(func.basic_block(entry_idx).node, bb0_vx.unwrap());
}

#[test]
fn issue_51_treat_entry_point_as_incoming_edge() {
    let main = vec![
        rule(&[0], "test0", vec![J::Abs(1)]),
        rule(&[1], "test1", vec![J::Abs(2)]),
        rule(&[2], "test2", vec![J::Abs(0)]),
    ];
    let reg = region(vec![0, 1, 2]);
    let func = Function::new::<TableArch>(main, 1, &reg, None).unwrap();

    assert_eq!(func.cfg().node_count(), 2);
    assert_eq!(func.cfg().edge_count(), 2);

    let mut bb0_vx = None;
    let mut bb1_vx = None;

    for vx in func.cfg().node_indices() {
        if let Some(CfgNode::BasicBlock(bb_idx)) = func.cfg().node_weight(vx) {
            let bb_idx = *bb_idx;
            let bb = func.basic_block(bb_idx);
            let mnes = func.mnemonics(bb_idx);

            if bb.area.start == 0 {
                assert_eq!(mnes.len(), 1);
                assert_eq!(bb.area(), 0..1);
                bb0_vx = Some(vx);
            } else if bb.area.start == 1 {
                assert_eq!(mnes.len(), 2);
                assert_eq!(bb.area(), 1..3);
                bb1_vx = Some(vx);
            } else {
                unreachable!();
            }
        } else {
            unreachable!();
        }
    }

    assert!(bb0_vx.is_some() && bb1_vx.is_some());
    let entry_idx = func.entry_point();
    assert_eq!(func.basic_block(entry_idx).node, bb1_vx.unwrap());
    assert!(func.cfg().find_edge(bb0_vx.unwrap(), bb1_vx.unwrap()).is_some());
    assert!(func.cfg().find_edge(bb1_vx.unwrap(), bb0_vx.unwrap()).is_some());
}

#[test]
fn issue_232_overlap_with_entry_point() {
    let main = vec![
        rule(&[0, 1], "test01", vec![J::Abs(2)]),
        rule(&[1], "test1", vec![J::Abs(2)]),
        rule(&[2], "test2", vec![J::Abs(0)]),
    ];
    let reg = region(vec![0, 1, 2]);
    let func = Function::new::<TableArch>(main, 1, &reg, None).unwrap();

    assert_eq!(func.cfg().node_count(), 3);
    assert_eq!(func.cfg().edge_count(), 3);

    let mut bb01_vx = None;
    let mut bb1_vx = None;
    let mut bb2_vx = None;

    for vx in func.cfg().node_indices() {
        if let Some(CfgNode::BasicBlock(bb_idx)) = func.cfg().node_weight(vx) {
            let bb_idx = *bb_idx;
            let bb = func.basic_block(bb_idx);
            let mnes = func.mnemonics(bb_idx);

            if bb.area.start == 0 {
                assert_eq!(mnes.len(), 1);
                assert_eq!(bb.area(), 0..2);
                bb01_vx = Some(vx);
            } else if bb.area.start == 1 {
                assert_eq!(mnes.len(), 1);
                assert_eq!(bb.area(), 1..2);
                bb1_vx = Some(vx);
            } else if bb.area.start == 2 {
                assert_eq!(mnes.len(), 1);
                assert_eq!(bb.area(), 2..3);
                bb2_vx = Some(vx);
            } else {
                unreachable!();
            }
        } else {
            unreachable!();
        }
    }

    assert!(bb01_vx.is_some());
    assert!(bb1_vx.is_some());
    assert!(bb2_vx.is_some());
    let entry_idx = func.entry_point();
    assert_eq!(func.basic_block(entry_idx).node, bb1_vx.unwrap());
    assert!(func.cfg().find_edge(bb01_vx.unwrap(), bb2_vx.unwrap()).is_some());
    assert!(func.cfg().find_edge(bb1_vx.unwrap(), bb2_vx.unwrap()).is_some());
    assert!(func.cfg().find_edge(bb2_vx.unwrap(), bb01_vx.unwrap()).is_some());
}

fn var(n: &str) -> Variable {
    Variable::new(n.to_string(), 32, None).unwrap()
}

fn vvar(n: &str) -> Value {
    Value::var(n.to_string(), 32, None).unwrap()
}

fn vval(v: u64) -> Value {
    Value::val(v, 32).unwrap()
}

#[test]
fn iter_statementsrange() {
    let main = vec![
        rule_il(
            &[0],
            "test0",
            vec![J::Rel(1)],
            vec![
                Statement::Expression { op: Operation::Add(vvar("b"), vvar("c")), result: var("a") },
                Statement::Expression {
                    op: Operation::Subtract(vvar("b"), vvar("c")),
                    result: var("a"),
                },
            ],
        ),
        rule_il(
            &[1],
            "test1",
            vec![J::Rel(1)],
            vec![Statement::Expression { op: Operation::Add(vvar("b"), vvar("c")), result: var("a") }],
        ),
        rule_il(
            &[2, 3],
            "test2",
            vec![],
            vec![Statement::Expression {
                op: Operation::Subtract(vvar("b"), vvar("c")),
                result: var("a"),
            }],
        ),
    ];
    let reg = region(vec![0, 1, 2, 3, 0, 0]);
    let func = Function::new::<TableArch>(main, 0, &reg, None).unwrap();

    let bb_idx: Vec<_> = func.basic_blocks().into_iter().map(|x| x.0).collect();
    assert_eq!(bb_idx.len(), 1);
    let stmts = func.statements(bb_idx[0]);
    assert_eq!(stmts.len(), 4);

    let bb: Vec<_> = func.basic_blocks().into_iter().map(|x| x.1).collect();
    assert_eq!(bb.len(), 1);
    let stmts = func.statements(&bb[0]);
    assert_eq!(stmts.len(), 4);

    let stmts = func.statements(..);
    assert_eq!(stmts.len(), 4);

    let mne_idx: Vec<_> = func.mnemonics(..).into_iter().map(|x| x.0).collect();
    assert_eq!(mne_idx.len(), 3);
    let stmts = func.statements(mne_idx[1]);
    assert_eq!(stmts.len(), 1);
    if let Statement::Expression { op: Operation::Add(Value::Variable(_), Value::Variable(_)), .. } =
        &stmts[0]
    {
    } else {
        unreachable!()
    }

    let stmts = func.statements(mne_idx[0]);
    assert_eq!(stmts.len(), 2);
    if let Statement::Expression { op: Operation::Add(Value::Variable(_), Value::Variable(_)), .. } =
        &stmts[0]
    {
    } else {
        unreachable!()
    }
    if let Statement::Expression {
        op: Operation::Subtract(Value::Variable(_), Value::Variable(_)),
        ..
    } = &stmts[1]
    {
    } else {
        unreachable!()
    }
}

/// The character-coded architecture of the rewrite tests.
///
/// `M<r><v>` moves `<v>` into `<r>`; `C<f><a><b>` compares; `A<r><a><b>`
/// adds; `B<f><addr>` branches to the decimal address and falls through;
/// `J<addr>` jumps; `R` returns. A digit operand is a constant, a letter a
/// variable.
enum TestArch {}

fn ta_char(reg: &Region, addr: u64) -> Option<char> {
    reg.read(addr).map(|b| b as char)
}

fn ta_value(c: char) -> Value {
    if let Some(d) = c.to_digit(10) {
        Value::val(d as u64, 32).unwrap()
    } else {
        Value::var(c.to_string(), 32, None).unwrap()
    }
}

fn ta_number(reg: &Region, mut addr: u64) -> (u64, u64) {
    let mut n = 0u64;
    let mut digits = 0u64;
    while let Some(c) = ta_char(reg, addr) {
        if let Some(d) = c.to_digit(10) {
            n = n * 10 + d as u64;
            digits += 1;
            addr += 1;
        } else {
            break;
        }
    }
    (n, digits)
}

impl Architecture for TestArch {
    type Configuration = ();
    fn decode(region: &Region, addr: u64, _config: &()) -> Result<Match, Error> {
        let op = ta_char(region, addr).ok_or(Error::NoEntryBlock)?;
        let g = Guard::always();
        match op {
            'M' => {
                let r = ta_char(region, addr + 1).ok_or(Error::NoEntryBlock)?;
                let v = ta_char(region, addr + 2).ok_or(Error::NoEntryBlock)?;
                let mne = Mnemonic::new(addr..addr + 3, "mov");
                let stmts = vec![Statement::Expression {
                    op: Operation::Move(ta_value(v)),
                    result: var(&r.to_string()),
                }];
                Ok(Match {
                    mnemonics: vec![(mne, stmts)],
                    jumps: vec![(addr, Rvalue::Constant { value: addr + 3, size: 64 }, g)],
                })
            }
            'C' => {
                let f = ta_char(region, addr + 1).ok_or(Error::NoEntryBlock)?;
                let a = ta_char(region, addr + 2).ok_or(Error::NoEntryBlock)?;
                let b = ta_char(region, addr + 3).ok_or(Error::NoEntryBlock)?;
                let mne = Mnemonic::new(addr..addr + 4, "cmp");
                let stmts = vec![Statement::Expression {
                    op: Operation::LessOrEqualUnsigned(ta_value(a), ta_value(b)),
                    result: var(&f.to_string()),
                }];
                Ok(Match {
                    mnemonics: vec![(mne, stmts)],
                    jumps: vec![(addr, Rvalue::Constant { value: addr + 4, size: 64 }, g)],
                })
            }
            'A' => {
                let r = ta_char(region, addr + 1).ok_or(Error::NoEntryBlock)?;
                let a = ta_char(region, addr + 2).ok_or(Error::NoEntryBlock)?;
                let b = ta_char(region, addr + 3).ok_or(Error::NoEntryBlock)?;
                let mne = Mnemonic::new(addr..addr + 4, "add");
                let stmts = vec![Statement::Expression {
                    op: Operation::Add(ta_value(a), ta_value(b)),
                    result: var(&r.to_string()),
                }];
                Ok(Match {
                    mnemonics: vec![(mne, stmts)],
                    jumps: vec![(addr, Rvalue::Constant { value: addr + 4, size: 64 }, g)],
                })
            }
            'B' => {
                let (tgt, digits) = ta_number(region, addr + 2);
                let len = 2 + digits;
                let mne = Mnemonic::new(addr..addr + len, "br");
                Ok(Match {
                    mnemonics: vec![(mne, vec![])],
                    jumps: vec![
                        (addr, Rvalue::Constant { value: tgt, size: 64 }, g),
                        (addr, Rvalue::Constant { value: addr + len, size: 64 }, g),
                    ],
                })
            }
            'J' => {
                let (tgt, digits) = ta_number(region, addr + 1);
                let len = 1 + digits;
                let mne = Mnemonic::new(addr..addr + len, "jmp");
                Ok(Match {
                    mnemonics: vec![(mne, vec![])],
                    jumps: vec![(addr, Rvalue::Constant { value: tgt, size: 64 }, g)],
                })
            }
            'R' => {
                let mne = Mnemonic::new(addr..addr + 1, "ret");
                Ok(Match { mnemonics: vec![(mne, vec![])], jumps: vec![] })
            }
            _ => Err(Error::NoEntryBlock),
        }
    }
}

#[test]
fn rewrite_rename() {
    let reg = region(b"Mi1Cfi0Bf18Aii3J22Ai23Ms3R".to_vec());
    let mut func = Function::new::<TestArch>((), 0, &reg, None).unwrap();
    func.rewrite(|mut basic_blocks| {
        for bb in basic_blocks.iter_mut() {
            for (_, stmts) in bb.iter_mut() {
                for stmt in stmts.iter_mut() {
                    if let Statement::Expression { result: Variable { name, .. }, .. } = stmt {
                        *name = name.to_uppercase();
                    }
                }
            }
        }
        Ok(basic_blocks)
    })
    .unwrap();

    let b0 = func.statements(BasicBlockIndex::new(0));
    if let Statement::Expression { op: Operation::Move(Value::Constant(_)), .. } = b0[0] {
    } else {
        unreachable!()
    }
    if let Statement::Expression {
        op: Operation::LessOrEqualUnsigned(Value::Variable(_), Value::Constant(_)),
        ..
    } = b0[1]
    {
    } else {
        unreachable!()
    }
    assert_eq!(b0.len(), 2);

    let b1 = func.statements(BasicBlockIndex::new(1));
    if let Statement::Expression { op: Operation::Add(Value::Variable(_), Value::Constant(_)), .. } =
        b1[0]
    {
    } else {
        unreachable!()
    }
    assert_eq!(b1.len(), 1);

    let b2 = func.statements(BasicBlockIndex::new(2));
    if let Statement::Expression { op: Operation::Add(Value::Constant(_), Value::Constant(_)), .. } =
        b2[0]
    {
    } else {
        unreachable!()
    }
    assert_eq!(b2.len(), 1);

    let b3 = func.statements(BasicBlockIndex::new(3));
    if let Statement::Expression { op: Operation::Move(Value::Constant(_)), .. } = b3[0] {
    } else {
        unreachable!()
    }
    assert_eq!(b3.len(), 1);

    for stmt in func.statements(..) {
        if let Statement::Expression { result: Variable { name, .. }, .. } = stmt {
            assert!(name.chars().all(|x| x.is_uppercase()));
        }
    }
}

#[test]
fn rewrite_add_mnemonic() {
    let reg = region(b"Mi1Cfi0Bf18Aii3J22Ai23Ms3R".to_vec());
    let mut func = Function::new::<TestArch>((), 0, &reg, None).unwrap();
    func.rewrite(|mut basic_blocks| {
        let start = basic_blocks[1][0].0.area.start;
        let mne = Mnemonic::new(start..start, "test");
        let stmts = vec![
            Statement::Expression {
                op: Operation::And(Value::val(42, 32).unwrap(), Value::var("x".to_string(), 32, None).unwrap()),
                result: Variable::new("x".to_string(), 32, None).unwrap(),
            },
            Statement::Expression {
                op: Operation::Subtract(
                    Value::val(42, 32).unwrap(),
                    Value::var("x".to_string(), 32, None).unwrap(),
                ),
                result: Variable::new("x".to_string(), 32, None).unwrap(),
            },
        ];

        basic_blocks[1].insert(0, (mne, stmts));
        Ok(basic_blocks)
    })
    .unwrap();

    let b0 = func.statements(BasicBlockIndex::new(0));
    if let Statement::Expression { op: Operation::Move(Value::Constant(_)), .. } = b0[0] {
    } else {
        unreachable!()
    }
    if let Statement::Expression {
        op: Operation::LessOrEqualUnsigned(Value::Variable(_), Value::Constant(_)),
        ..
    } = b0[1]
    {
    } else {
        unreachable!()
    }
    assert_eq!(b0.len(), 2);

    let b1 = func.statements(BasicBlockIndex::new(1));
    if let Statement::Expression { op: Operation::And(Value::Constant(_), Value::Variable(_)), .. } =
        b1[0]
    {
    } else {
        unreachable!()
    }
    if let Statement::Expression {
        op: Operation::Subtract(Value::Constant(_), Value::Variable(_)),
        ..
    } = b1[1]
    {
    } else {
        unreachable!()
    }
    if let Statement::Expression { op: Operation::Add(Value::Variable(_), Value::Constant(_)), .. } =
        b1[2]
    {
    } else {
        unreachable!()
    }
    assert_eq!(b1.len(), 3);

    let b2 = func.statements(BasicBlockIndex::new(2));
    if let Statement::Expression { op: Operation::Add(Value::Constant(_), Value::Constant(_)), .. } =
        b2[0]
    {
    } else {
        unreachable!()
    }
    assert_eq!(b2.len(), 1);

    let b3 = func.statements(BasicBlockIndex::new(3));
    if let Statement::Expression { op: Operation::Move(Value::Constant(_)), .. } = b3[0] {
    } else {
        unreachable!()
    }
    assert_eq!(b3.len(), 1);
}

#[test]
fn rewrite_add_statements() {
    let reg = region(b"Mi1Cfi0Bf18Aii3J22Ai23Ms3R".to_vec());
    let mut func = Function::new::<TestArch>((), 0, &reg, None).unwrap();
    func.rewrite(|mut basic_blocks| {
        let stmts = vec![
            Statement::Expression {
                op: Operation::And(Value::val(42, 32).unwrap(), Value::var("x".to_string(), 32, None).unwrap()),
                result: Variable::new("x".to_string(), 32, None).unwrap(),
            },
            Statement::Expression {
                op: Operation::Subtract(
                    Value::val(42, 32).unwrap(),
                    Value::var("x".to_string(), 32, None).unwrap(),
                ),
                result: Variable::new("x".to_string(), 32, None).unwrap(),
            },
        ];

        basic_blocks[1][0].1.extend(stmts);
        Ok(basic_blocks)
    })
    .unwrap();

    let b0 = func.statements(BasicBlockIndex::new(0));
    if let Statement::Expression { op: Operation::Move(Value::Constant(_)), .. } = b0[0] {
    } else {
        unreachable!()
    }
    if let Statement::Expression {
        op: Operation::LessOrEqualUnsigned(Value::Variable(_), Value::Constant(_)),
        ..
    } = b0[1]
    {
    } else {
        unreachable!()
    }
    assert_eq!(b0.len(), 2);

    let b1 = func.statements(BasicBlockIndex::new(1));
    if let Statement::Expression { op: Operation::Add(Value::Variable(_), Value::Constant(_)), .. } =
        b1[0]
    {
    } else {
        unreachable!()
    }
    if let Statement::Expression { op: Operation::And(Value::Constant(_), Value::Variable(_)), .. } =
        b1[1]
    {
    } else {
        unreachable!()
    }
    if let Statement::Expression {
        op: Operation::Subtract(Value::Constant(_), Value::Variable(_)),
        ..
    } = b1[2]
    {
    } else {
        unreachable!()
    }
    assert_eq!(b1.len(), 3);

    let b2 = func.statements(BasicBlockIndex::new(2));
    if let Statement::Expression { op: Operation::Add(Value::Constant(_), Value::Constant(_)), .. } =
        b2[0]
    {
    } else {
        unreachable!()
    }
    assert_eq!(b2.len(), 1);

    let b3 = func.statements(BasicBlockIndex::new(3));
    if let Statement::Expression { op: Operation::Move(Value::Constant(_)), .. } = b3[0] {
    } else {
        unreachable!()
    }
    assert_eq!(b3.len(), 1);
}

#[test]
fn rewrite_remove_mnemonic() {
    let reg = region(b"Mi1Cfi0Bf18Aii3J22Ai23Ms3R".to_vec());
    let mut func = Function::new::<TestArch>((), 0, &reg, None).unwrap();
    func.rewrite(|mut basic_blocks| {
        basic_blocks[1].remove(0);
        Ok(basic_blocks)
    })
    .unwrap();

    let b0 = func.statements(BasicBlockIndex::new(0));
    if let Statement::Expression { op: Operation::Move(Value::Constant(_)), .. } = b0[0] {
    } else {
        unreachable!()
    }
    if let Statement::Expression {
        op: Operation::LessOrEqualUnsigned(Value::Variable(_), Value::Constant(_)),
        ..
    } = b0[1]
    {
    } else {
        unreachable!()
    }
    assert_eq!(b0.len(), 2);

    let b1 = func.statements(BasicBlockIndex::new(1));
    assert_eq!(b1.len(), 0);

    let b2 = func.statements(BasicBlockIndex::new(2));
    if let Statement::Expression { op: Operation::Add(Value::Constant(_), Value::Constant(_)), .. } =
        b2[0]
    {
    } else {
        unreachable!()
    }
    assert_eq!(b2.len(), 1);

    let b3 = func.statements(BasicBlockIndex::new(3));
    if let Statement::Expression { op: Operation::Move(Value::Constant(_)), .. } = b3[0] {
    } else {
        unreachable!()
    }
    assert_eq!(b3.len(), 1);
}
