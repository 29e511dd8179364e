//! The work-queue disassembler: recursive descent from a set of start
//! addresses, splicing decoded mnemonics into an address-sorted vector and
//! recording every reported jump.

use vstd::prelude::*;

use crate::arch::Architecture;
use crate::arch::Match;
use crate::error::Error;
use crate::il::Statement;
use crate::il::StatementV;
use crate::mnemonic::Mnemonic;
use crate::mnemonic::MnemonicV;
use crate::region::Region;
use crate::value::Guard;
use crate::value::Rvalue;
use crate::value::Value;
use crate::value::ValueV;

verus! {

/// One recorded control transfer: a jump from the mnemonic starting at
/// `origin` to `target`, guarded by `guard`.
///
/// The fan-out map (`by_source`) of the assembler is this list filtered by
/// `origin`; the fan-in map (`by_destination`) is this list restricted to
/// constant targets and filtered by the target's value.
#[derive(Debug)]
pub struct Jump {
    pub origin: u64,
    pub target: Value,
    pub guard: Guard,
}

/// Mathematical image of a [`Jump`].
pub ghost struct JumpV {
    pub origin: u64,
    pub target: ValueV,
    pub guard: Guard,
}

impl View for Jump {
    type V = JumpV;

    open spec fn view(&self) -> JumpV {
        JumpV { origin: self.origin, target: self.target@, guard: self.guard }
    }
}

impl DeepView for Jump {
    type V = JumpV;

    open spec fn deep_view(&self) -> JumpV {
        self@
    }
}

impl Clone for Jump {
    fn clone(&self) -> (r: Self)
        ensures
            r@ == self@,
    {
        Jump { origin: self.origin, target: self.target.clone(), guard: self.guard }
    }
}

/// The mnemonic images of a `(mnemonic, statements)` pair sequence.
pub open spec fn pair_mnes(ps: Seq<(MnemonicV, Seq<StatementV>)>) -> Seq<MnemonicV> {
    ps.map_values(|p: (MnemonicV, Seq<StatementV>)| p.0)
}

/// The exact `(mnemonic, statements)` pair occurs in the vector.
pub open spec fn pair_present(
    ps: Seq<(MnemonicV, Seq<StatementV>)>,
    pr: (MnemonicV, Seq<StatementV>),
) -> bool {
    exists|y: int| 0 <= y < ps.len() && #[trigger] ps[y] == pr
}

/// Some pair's mnemonic starts at `s`.
pub open spec fn pair_start_present(ps: Seq<(MnemonicV, Seq<StatementV>)>, s: u64) -> bool {
    exists|y: int| 0 <= y < ps.len() && (#[trigger] ps[y]).0.start == s
}

/// Mnemonic starts are strictly increasing and every mnemonic is at least
/// one address unit wide.
pub open spec fn pairs_sorted(ps: Seq<(MnemonicV, Seq<StatementV>)>) -> bool {
    &&& forall|i: int, j: int|
        0 <= i < j < ps.len() ==> (#[trigger] ps[i]).0.start < (#[trigger] ps[j]).0.start
    &&& forall|i: int| 0 <= i < ps.len() ==> (#[trigger] ps[i]).0.start < ps[i].0.end
}

/// A decode result is well formed at `addr` when it is non-empty, starts
/// exactly at `addr`, each mnemonic is at least one address unit wide, and
/// consecutive mnemonics are address-contiguous.
pub open spec fn match_mnemonics_valid(ms: Seq<(MnemonicV, Seq<StatementV>)>, addr: u64) -> bool {
    &&& ms.len() > 0
    &&& ms[0].0.start == addr
    &&& forall|i: int| 0 <= i < ms.len() ==> (#[trigger] ms[i]).0.start < ms[i].0.end
    &&& forall|i: int|
        0 <= i < ms.len() - 1 ==> (#[trigger] ms[i]).0.end == ms[i + 1].0.start
}

/// Checks a decode result before it is trusted: see [`match_mnemonics_valid`].
fn check_match(m: &Match, addr: u64) -> (r: bool)
    ensures
        r == match_mnemonics_valid(m.mnemonics.deep_view(), addr),
{
    let ghost ms = m.mnemonics.deep_view();
    if m.mnemonics.len() == 0 {
        return false;
    }
    if m.mnemonics[0].0.area.start != addr {
        return false;
    }
    let mut i: usize = 0;
    while i < m.mnemonics.len()
        invariant
            i <= ms.len(),
            forall|k: int| 0 <= k < i ==> (#[trigger] ms[k]).0.start < ms[k].0.end,
            forall|k: int| 0 <= k < i && k < ms.len() - 1 ==> (#[trigger] ms[k]).0.end == ms[k
                + 1].0.start,
        decreases ms.len() - i,
    {
        let mne = &m.mnemonics[i].0;
        proof {
            assert(ms[i as int].0 == m.mnemonics@[i as int].0@);
        }
        if mne.area.start >= mne.area.end {
            proof {
                assert(!(ms[i as int].0.start < ms[i as int].0.end));
            }
            return false;
        }
        if i + 1 < m.mnemonics.len() {
            proof {
                assert(ms[i + 1].0 == m.mnemonics@[i + 1].0@);
            }
            if mne.area.end != m.mnemonics[i + 1].0.area.start {
                proof {
                    assert(ms[i as int].0.end != ms[i + 1].0.start);
                }
                return false;
            }
        }
        i = i + 1;
    }
    true
}

/// Position of `addr` in the sorted pair vector: `found` tells whether a
/// mnemonic starts exactly at `addr`; `pos` is the first index whose
/// mnemonic starts at or above `addr` (the insertion point).
fn find_position(mnemonics: &Vec<(Mnemonic, Vec<Statement>)>, addr: u64) -> (r: (bool, usize))
    requires
        pairs_sorted(mnemonics.deep_view()),
    ensures
        r.1 <= mnemonics@.len(),
        forall|k: int|
            0 <= k < r.1 ==> (#[trigger] mnemonics.deep_view()[k]).0.start < addr,
        forall|k: int|
            r.1 <= k < mnemonics@.len() ==> (#[trigger] mnemonics.deep_view()[k]).0.start >= addr,
        r.0 <==> (r.1 < mnemonics@.len() && mnemonics.deep_view()[r.1 as int].0.start == addr),
{
    let ghost ms = mnemonics.deep_view();
    let mut pos: usize = 0;
    while pos < mnemonics.len() && mnemonics[pos].0.area.start < addr
        invariant
            pos <= ms.len(),
            forall|k: int| 0 <= k < pos ==> (#[trigger] ms[k]).0.start < addr,
        decreases ms.len() - pos,
    {
        pos = pos + 1;
    }
    proof {
        assert forall|k: int| pos <= k < ms.len() implies (#[trigger] ms[k]).0.start >= addr by {
            if k > pos {
                assert(ms[pos as int].0.start < ms[k].0.start);
            }
        }
    }
    let found = pos < mnemonics.len() && mnemonics[pos].0.area.start == addr;
    (found, pos)
}

/// Drives recursive-descent disassembly from the addresses in `starts`.
///
/// Pops pending addresses until none are left. An address already covered
/// by a decoded mnemonic — at its start, or strictly inside it — is not
/// decoded again. Otherwise the decoder runs; a result that fails
/// [`match_mnemonics_valid`] counts as a failed decode and is dropped, as
/// decode failures are. Accepted mnemonics are spliced into the sorted
/// vector (one whose start is already taken is dropped); every reported
/// jump is recorded in `jumps`, and constant jump targets are enqueued.
///
/// Decode failures never abort the run; only a jump value that cannot be
/// constructed (zero bit width) does.
pub fn disassemble<A: Architecture>(
    config: &A::Configuration,
    starts: Vec<u64>,
    region: &Region,
    mnemonics: &mut Vec<(Mnemonic, Vec<Statement>)>,
    jumps: &mut Vec<Jump>,
) -> (r: Result<(), Error>)
    requires
        pairs_sorted(old(mnemonics).deep_view()),
    ensures
        r is Ok ==> pairs_sorted(final(mnemonics).deep_view()),
        r matches Err(e) ==> e == Error::ValueConstructionFailure,
        forall|s: u64|
            #[trigger] pair_start_present(old(mnemonics).deep_view(), s) ==> pair_start_present(
                final(mnemonics).deep_view(),
                s,
            ),
        forall|pr: (MnemonicV, Seq<StatementV>)|
            #[trigger] pair_present(old(mnemonics).deep_view(), pr) ==> pair_present(
                final(mnemonics).deep_view(),
                pr,
            ),
        final(jumps)@.len() >= old(jumps)@.len(),
        forall|i: int|
            0 <= i < old(jumps)@.len() ==> #[trigger] final(jumps)@[i] == old(jumps)@[i],
        (forall|i: int|
            0 <= i < starts@.len() ==> pair_start_present(
                old(mnemonics).deep_view(),
                #[trigger] starts@[i],
            )) ==> (*final(mnemonics) == *old(mnemonics) && *final(jumps) == *old(jumps)
            && r is Ok),
{
    let ghost already = forall|i: int|
        0 <= i < starts@.len() ==> pair_start_present(
            old(mnemonics).deep_view(),
            #[trigger] starts@[i],
        );
    let mut todo: Vec<u64> = starts;
    let mut visited: Vec<u64> = Vec::new();
    while todo.len() > 0
        invariant
            pairs_sorted(mnemonics.deep_view()),
            forall|s: u64|
                #[trigger] pair_start_present(old(mnemonics).deep_view(), s)
                    ==> pair_start_present(mnemonics.deep_view(), s),
            forall|pr: (MnemonicV, Seq<StatementV>)|
                #[trigger] pair_present(old(mnemonics).deep_view(), pr) ==> pair_present(
                    mnemonics.deep_view(),
                    pr,
                ),
            jumps@.len() >= old(jumps)@.len(),
            forall|i: int| 0 <= i < old(jumps)@.len() ==> #[trigger] jumps@[i] == old(jumps)@[i],
            already ==> (*mnemonics == *old(mnemonics) && *jumps == *old(jumps) && (forall|i: int|
                0 <= i < todo@.len() ==> pair_start_present(
                    old(mnemonics).deep_view(),
                    #[trigger] todo@[i],
                ))),
        decreases usize::MAX + 1 - visited@.len(), todo@.len(),
    {
        let addr = todo.pop().unwrap();
        if contains_addr(&visited, addr) {
            continue ;
        }
        let seen_before = visited.len();
        proof {
            assert(usize::MAX + 1 - (seen_before + 1) >= 0);
        }
        visited.push(addr);
        let (found, pos) = find_position(mnemonics, addr);
        proof {
            if already {
                assert(pair_start_present(mnemonics.deep_view(), addr));
                let y = choose|y: int|
                    0 <= y < mnemonics.deep_view().len() && (#[trigger] mnemonics.deep_view()[y]).0.start
                        == addr;
                if y > pos {
                    assert(mnemonics.deep_view()[pos as int].0.start
                        < mnemonics.deep_view()[y].0.start);
                }
                assert(found);
            }
        }
        if found {
            // Already disassembled here.
            continue ;
        }
        if pos > 0 && mnemonics[pos - 1].0.area.end > addr {
            // A jump into the middle of an existing mnemonic; not decoded
            // again.
            continue ;
        }
        let decoded = A::decode(region, addr, config);
        match decoded {
            Ok(match_st) => {
                if check_match(&match_st, addr) {
                    let mut k: usize = 0;
                    while k < match_st.mnemonics.len()
                        invariant
                            pairs_sorted(mnemonics.deep_view()),
                            forall|s: u64|
                                #[trigger] pair_start_present(old(mnemonics).deep_view(), s)
                                    ==> pair_start_present(mnemonics.deep_view(), s),
                            forall|pr: (MnemonicV, Seq<StatementV>)|
                                #[trigger] pair_present(old(mnemonics).deep_view(), pr)
                                    ==> pair_present(mnemonics.deep_view(), pr),
                        decreases match_st.mnemonics@.len() - k,
                    {
                        let mne = match_st.mnemonics[k].0.clone();
                        let stmts = match_st.mnemonics[k].1.clone();
                        proof {
                            assert(mne@ == match_st.mnemonics.deep_view()[k as int].0);
                        }
                        insert_pair(mnemonics, mne, stmts);
                        k = k + 1;
                    }
                }
                let mut k: usize = 0;
                while k < match_st.jumps.len()
                    invariant
                        pairs_sorted(mnemonics.deep_view()),
                        jumps@.len() >= old(jumps)@.len(),
                        forall|i: int|
                            0 <= i < old(jumps)@.len() ==> #[trigger] jumps@[i] == old(
                                jumps,
                            )@[i],
                    decreases match_st.jumps@.len() - k,
                {
                    let origin = match_st.jumps[k].0;
                    let guard = match_st.jumps[k].2;
                    match &match_st.jumps[k].1 {
                        Rvalue::Constant { value, size } => {
                            let v = match Value::val(*value, *size) {
                                Ok(v) => v,
                                Err(e) => {
                                    return Err(e);
                                },
                            };
                            jumps.push(Jump { origin, target: v, guard });
                            todo.push(*value);
                        },
                        Rvalue::Variable { name, size, .. } => {
                            let v = match Value::var(name.clone(), *size, None) {
                                Ok(v) => v,
                                Err(e) => {
                                    return Err(e);
                                },
                            };
                            jumps.push(Jump { origin, target: v, guard });
                        },
                        Rvalue::Undefined => {
                            jumps.push(Jump { origin, target: Value::undef(), guard });
                        },
                    }
                    k = k + 1;
                }
            },
            Err(_) => {
                // Failed to disassemble here; recorded nowhere, the gap
                // shows up as a missing block edge.
            },
        }
    }
    Ok(())
}

/// Whether `addr` occurs in `seen`.
fn contains_addr(seen: &Vec<u64>, addr: u64) -> (r: bool)
    ensures
        r == seen@.contains(addr),
{
    let mut i: usize = 0;
    while i < seen.len()
        invariant
            i <= seen@.len(),
            forall|k: int| 0 <= k < i ==> seen@[k] != addr,
        decreases seen@.len() - i,
    {
        if seen[i] == addr {
            return true;
        }
        i = i + 1;
    }
    false
}

/// Splices one accepted mnemonic into the sorted vector; a mnemonic whose
/// start address is already taken is dropped.
fn insert_pair(
    mnemonics: &mut Vec<(Mnemonic, Vec<Statement>)>,
    mne: Mnemonic,
    stmts: Vec<Statement>,
)
    requires
        pairs_sorted(old(mnemonics).deep_view()),
        mne@.start < mne@.end,
    ensures
        pairs_sorted(final(mnemonics).deep_view()),
        forall|s: u64|
            #[trigger] pair_start_present(old(mnemonics).deep_view(), s) ==> pair_start_present(
                final(mnemonics).deep_view(),
                s,
            ),
        forall|pr: (MnemonicV, Seq<StatementV>)|
            #[trigger] pair_present(old(mnemonics).deep_view(), pr) ==> pair_present(
                final(mnemonics).deep_view(),
                pr,
            ),
        pair_start_present(old(mnemonics).deep_view(), mne@.start)
            ==> *final(mnemonics) == *old(mnemonics),
        !pair_start_present(old(mnemonics).deep_view(), mne@.start)
            ==> final(mnemonics).deep_view().len() == old(mnemonics).deep_view().len() + 1
                && pair_present(final(mnemonics).deep_view(), (mne@, stmts.deep_view())),
{
    let (found, pos) = find_position(mnemonics, mne.area.start);
    proof {
        let ms = mnemonics.deep_view();
        if found {
            assert(pair_start_present(ms, mne@.start));
        } else {
            assert forall|y: int|
                0 <= y < ms.len() implies (#[trigger] ms[y]).0.start != mne@.start by {
                if y >= pos && pos < ms.len() && y > pos {
                    assert(ms[pos as int].0.start < ms[y].0.start);
                }
            }
            assert(!pair_start_present(ms, mne@.start));
        }
    }
    if !found {
        let ghost before = mnemonics.deep_view();
        let ghost s = mne@.start;
        mnemonics.insert(pos, (mne, stmts));
        proof {
            let after = mnemonics.deep_view();
            assert(after.len() == before.len() + 1);
            assert forall|s2: u64|
                #[trigger] pair_start_present(before, s2) implies pair_start_present(
                after,
                s2,
            ) by {
                let y = choose|y: int| 0 <= y < before.len() && (#[trigger] before[y]).0.start
                    == s2;
                if y < pos {
                    assert(after[y] == before[y]);
                } else {
                    assert(after[y + 1] == before[y]);
                }
            }
            assert forall|pr: (MnemonicV, Seq<StatementV>)|
                #[trigger] pair_present(before, pr) implies pair_present(after, pr) by {
                let y = choose|y: int| 0 <= y < before.len() && #[trigger] before[y] == pr;
                if y < pos {
                    assert(after[y] == before[y]);
                } else {
                    assert(after[y + 1] == before[y]);
                }
            }
            assert(after[pos as int] == (mne@, stmts.deep_view()));
            assert(pair_present(after, (mne@, stmts.deep_view())));
            assert forall|i: int| 0 <= i < after.len() implies (#[trigger] after[i]).0.start < after[i].0.end by {
                if i < pos {
                    assert(after[i] == before[i]);
                } else if i == pos {
                    assert(after[i].0 == mne@);
                } else {
                    assert(after[i] == before[i - 1]);
                }
            }
            assert forall|i: int, j: int|
                0 <= i < j < after.len() implies (#[trigger] after[i]).0.start < (
            #[trigger] after[j]).0.start by {
                if i < pos {
                    assert(after[i] == before[i]);
                } else if i == pos {
                    assert(after[i].0 == mne@);
                } else {
                    assert(after[i] == before[i - 1]);
                }
                if j < pos {
                    assert(after[j] == before[j]);
                } else if j == pos {
                    assert(after[j].0 == mne@);
                } else {
                    assert(after[j] == before[j - 1]);
                }
            }
        }
    }
}

} // verus!
