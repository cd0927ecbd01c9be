//! The bracket resolver: one left-to-right scan over the program that pairs
//! every `[` with its matching `]` and records both directions in a jump
//! table, or reports the program as unbalanced.

use vstd::prelude::*;
use crate::errors::BfError;
use crate::semantics::{OP_OPEN, OP_CLOSE, wf_table};

verus! {

/// Whether byte `c` is one of the two loop brackets.
pub open spec fn is_bracket(c: u8) -> bool {
    c == OP_OPEN || c == OP_CLOSE
}

/// How many `[` stand in `code` before position `i`.
pub open spec fn opens(code: Seq<u8>, i: int) -> int
    decreases i,
{
    if i <= 0 {
        0
    } else {
        opens(code, i - 1) + if code[i - 1] == OP_OPEN {
            1int
        } else {
            0int
        }
    }
}

/// How many `]` stand in `code` before position `i`.
pub open spec fn closes(code: Seq<u8>, i: int) -> int
    decreases i,
{
    if i <= 0 {
        0
    } else {
        closes(code, i - 1) + if code[i - 1] == OP_CLOSE {
            1int
        } else {
            0int
        }
    }
}

/// No prefix of `code[..i]` closes more loops than it has opened.
pub open spec fn prefix_ok(code: Seq<u8>, i: int) -> bool {
    forall|j: int| 0 <= j <= i ==> #[trigger] closes(code, j) <= opens(code, j)
}

/// The program's loops are properly nested: no prefix closes more than it
/// opened, and at the end every opened loop has been closed.
pub open spec fn balanced(code: Seq<u8>) -> bool {
    &&& prefix_ok(code, code.len() as int)
    &&& opens(code, code.len() as int) == closes(code, code.len() as int)
}

/// The resolver's state after scanning `code[..i]`: the stack of still-open
/// `[` positions and the jump table filled in so far, or `None` once a `]`
/// with nothing to match has been seen.
pub open spec fn scan(code: Seq<u8>, i: nat) -> Option<(Seq<usize>, Seq<usize>)>
    decreases i,
{
    if i == 0 {
        Some((Seq::empty(), Seq::new(code.len(), |j: int| 0usize)))
    } else {
        match scan(code, (i - 1) as nat) {
            Option::None => Option::None,
            Option::Some(st) => {
                let stack = st.0;
                let table = st.1;
                let c = code[i - 1];
                if c == OP_OPEN {
                    Some((stack.push((i - 1) as usize), table))
                } else if c == OP_CLOSE {
                    if stack.len() == 0 {
                        Option::None
                    } else {
                        let open = stack.last();
                        Some(
                            (
                                stack.drop_last(),
                                table.update(open as int, (i - 1) as usize).update(i - 1, open),
                            ),
                        )
                    }
                } else {
                    Some((stack, table))
                }
            },
        }
    }
}

/// The jump table of a balanced program: what the full scan produces.
pub open spec fn jump_table(code: Seq<u8>) -> Seq<usize> {
    scan(code, code.len())->Some_0.1
}

/// Position `p` is a bracket of `code[..i]` whose partner has already been
/// found: it is not waiting on the stack.
pub open spec fn is_matched(code: Seq<u8>, i: int, stack: Seq<usize>, p: int) -> bool {
    0 <= p < i && is_bracket(code[p]) && !stack.contains(p as usize)
}

/// The stack holds positions of `[` inside `code[..i]`, in strictly
/// increasing order.
pub open spec fn stack_ok(code: Seq<u8>, i: int, stack: Seq<usize>) -> bool {
    &&& forall|k: int|
        0 <= k < stack.len() ==> 0 <= (#[trigger] stack[k]) < i && code[stack[k] as int] == OP_OPEN
    &&& forall|k1: int, k2: int| 0 <= k1 < k2 < stack.len() ==> stack[k1] < stack[k2]
}

/// The table entry of a matched bracket `p` leads to a matched partner of
/// the opposite kind on the proper side, and the partner leads back.
pub open spec fn pair_ok(code: Seq<u8>, i: int, stack: Seq<usize>, table: Seq<usize>, p: int) -> bool {
    let q = table[p] as int;
    &&& is_matched(code, i, stack, q)
    &&& table[q] as int == p
    &&& (code[p] == OP_OPEN ==> code[q] == OP_CLOSE && p < q)
    &&& (code[p] == OP_CLOSE ==> code[q] == OP_OPEN && q < p)
}

/// The table pairs every matched bracket of `code[..i]` both ways and still
/// holds the unused sentinel 0 everywhere else.
pub open spec fn table_ok(code: Seq<u8>, i: int, stack: Seq<usize>, table: Seq<usize>) -> bool {
    &&& table.len() == code.len()
    &&& forall|p: int| is_matched(code, i, stack, p) ==> pair_ok(code, i, stack, table, p)
    &&& forall|p: int|
        0 <= p < table.len() && !is_matched(code, i, stack, p) ==> (#[trigger] table[p]) == 0
}

proof fn lemma_push_membership(s: Seq<usize>, v: usize, y: usize)
    ensures
        s.push(v).contains(y) <==> (s.contains(y) || y == v),
{
    if s.contains(y) {
        let k = choose|k: int| 0 <= k < s.len() && s[k] == y;
        assert(s.push(v)[k] == y);
    }
    if y == v {
        assert(s.push(v)[s.len() as int] == y);
    }
    if s.push(v).contains(y) {
        let k = choose|k: int| 0 <= k < s.push(v).len() && s.push(v)[k] == y;
        if k < s.len() {
            assert(s[k] == y);
        }
    }
}

proof fn lemma_bounded_not_contains(s: Seq<usize>, bound: int, y: usize)
    requires
        forall|k: int| 0 <= k < s.len() ==> (#[trigger] s[k]) < bound,
        y as int >= bound,
    ensures
        !s.contains(y),
{
}

proof fn lemma_strict_mono_last_not_in_rest(s: Seq<usize>)
    requires
        s.len() > 0,
        forall|k1: int, k2: int| 0 <= k1 < k2 < s.len() ==> s[k1] < s[k2],
    ensures
        !s.drop_last().contains(s.last()),
{
    if s.drop_last().contains(s.last()) {
        let k = choose|k: int| 0 <= k < s.drop_last().len() && s.drop_last()[k] == s.last();
        assert(s[k] == s[s.len() - 1]);
        assert(s[k] < s[s.len() - 1]);
    }
}

/// The scan invariant: scanning `code[..i]` succeeds exactly when no prefix
/// of it over-closes, and on success the stack and the partial jump table
/// describe the unmatched and the matched brackets of `code[..i]`.
proof fn lemma_scan_invariant(code: Seq<u8>, i: nat)
    requires
        i <= code.len(),
        code.len() <= usize::MAX,
    ensures
        scan(code, i) is Some <==> prefix_ok(code, i as int),
        scan(code, i) matches Some(st) ==> {
            &&& stack_ok(code, i as int, st.0)
            &&& table_ok(code, i as int, st.0, st.1)
            &&& st.0.len() == opens(code, i as int) - closes(code, i as int)
        },
    decreases i,
{
    if i == 0 {
        assert(opens(code, 0) == 0);
        assert(closes(code, 0) == 0);
        assert(scan(code, 0) is Some);
        let st = scan(code, 0)->Some_0;
        assert(forall|p: int| 0 <= p < st.1.len() ==> (#[trigger] st.1[p]) == 0);
    } else {
        lemma_scan_invariant(code, (i - 1) as nat);
        let i1 = i - 1;
        let c = code[i1];
        assert(opens(code, i as int) == opens(code, i1) + if c == OP_OPEN {
            1int
        } else {
            0int
        });
        assert(closes(code, i as int) == closes(code, i1) + if c == OP_CLOSE {
            1int
        } else {
            0int
        });
        match scan(code, i1 as nat) {
            Option::None => {
                assert(scan(code, i) is None);
                assert(!prefix_ok(code, i1));
                let j = choose|j: int| 0 <= j <= i1 && !(closes(code, j) <= opens(code, j));
                assert(!(closes(code, j) <= opens(code, j)));
                assert(!prefix_ok(code, i as int));
            },
            Option::Some(st) => {
                let stack = st.0;
                let table = st.1;
                assert(prefix_ok(code, i1));
                assert(closes(code, i1) <= opens(code, i1));
                if c == OP_OPEN {
                    let stack2 = stack.push(i1 as usize);
                    assert(scan(code, i) == Some((stack2, table)));
                    assert(prefix_ok(code, i as int));
                    assert(stack_ok(code, i as int, stack2)) by {
                        assert(forall|k: int|
                            0 <= k < stack.len() ==> stack2[k] == (#[trigger] stack[k]));
                        assert(stack2[stack.len() as int] == i1 as usize);
                    };
                    assert(table_ok(code, i as int, stack2, table)) by {
                        assert forall|p: int| is_matched(code, i as int, stack2, p) implies pair_ok(
                            code,
                            i as int,
                            stack2,
                            table,
                            p,
                        ) by {
                            lemma_push_membership(stack, i1 as usize, p as usize);
                            assert(is_matched(code, i1, stack, p));
                            assert(pair_ok(code, i1, stack, table, p));
                            let q = table[p] as int;
                            lemma_push_membership(stack, i1 as usize, q as usize);
                            assert(is_matched(code, i as int, stack2, q));
                        };
                        assert forall|p: int|
                            0 <= p < table.len() && !is_matched(code, i as int, stack2, p) implies (
                        #[trigger] table[p]) == 0 by {
                            lemma_push_membership(stack, i1 as usize, p as usize);
                            assert(!is_matched(code, i1, stack, p));
                        };
                    };
                } else if c == OP_CLOSE {
                    if stack.len() == 0 {
                        assert(scan(code, i) is None);
                        assert(closes(code, i as int) > opens(code, i as int));
                        assert(!prefix_ok(code, i as int));
                    } else {
                        let open = stack.last();
                        let stack2 = stack.drop_last();
                        let table2 = table.update(open as int, i1 as usize).update(i1, open);
                        assert(scan(code, i) == Some((stack2, table2)));
                        assert((open as int) < i1 && code[open as int] == OP_OPEN);
                        assert(prefix_ok(code, i as int));
                        assert(stack2.len() == opens(code, i as int) - closes(code, i as int));
                        assert(forall|k: int|
                            0 <= k < stack2.len() ==> stack2[k] == (#[trigger] stack[k]));
                        assert(stack_ok(code, i as int, stack2));
                        assert(stack == stack2.push(open)) by {
                            assert(stack =~= stack2.push(open));
                        };
                        lemma_strict_mono_last_not_in_rest(stack);
                        assert(is_matched(code, i as int, stack2, open as int)) by {
                            assert(!stack2.contains(open));
                        };
                        assert(is_matched(code, i as int, stack2, i1)) by {
                            lemma_bounded_not_contains(stack2, i1, i1 as usize);
                        };
                        assert(table_ok(code, i as int, stack2, table2)) by {
                            assert(table2[open as int] == i1 as usize);
                            assert(table2[i1] == open);
                            assert forall|p: int| is_matched(code, i as int, stack2, p) implies
                                pair_ok(code, i as int, stack2, table2, p) by {
                                if p == open as int {
                                    assert(pair_ok(code, i as int, stack2, table2, p));
                                } else if p == i1 {
                                    assert(pair_ok(code, i as int, stack2, table2, p));
                                } else {
                                    lemma_push_membership(stack2, open, p as usize);
                                    assert(is_matched(code, i1, stack, p));
                                    assert(pair_ok(code, i1, stack, table, p));
                                    let q = table[p] as int;
                                    assert(q != (open as int) && q != i1) by {
                                        assert(stack.contains(open)) by {
                                            assert(stack[stack.len() - 1] == open);
                                        };
                                        assert(is_matched(code, i1, stack, q));
                                    };
                                    assert(table2[p] == table[p]);
                                    assert(table2[q] == table[q]);
                                    lemma_push_membership(stack2, open, q as usize);
                                    assert(is_matched(code, i as int, stack2, q));
                                }
                            };
                            assert forall|p: int|
                                0 <= p < table2.len() && !is_matched(code, i as int, stack2, p)
                                implies (#[trigger] table2[p]) == 0 by {
                                assert(p != (open as int) && p != i1);
                                lemma_push_membership(stack2, open, p as usize);
                                assert(!is_matched(code, i1, stack, p));
                                assert(table2[p] == table[p]);
                            };
                        };
                    }
                } else {
                    assert(scan(code, i) == Some((stack, table)));
                    assert(prefix_ok(code, i as int));
                    assert(!is_bracket(c));
                    assert(table_ok(code, i as int, stack, table)) by {
                        assert forall|p: int| is_matched(code, i as int, stack, p) implies pair_ok(
                            code,
                            i as int,
                            stack,
                            table,
                            p,
                        ) by {
                            assert(p != i1);
                            assert(is_matched(code, i1, stack, p));
                            assert(pair_ok(code, i1, stack, table, p));
                        };
                        assert forall|p: int|
                            0 <= p < table.len() && !is_matched(code, i as int, stack, p) implies (
                        #[trigger] table[p]) == 0 by {
                            assert(!is_matched(code, i1, stack, p));
                        };
                    };
                }
            },
        }
    }
}

/// Law: on a balanced program the jump table pairs the brackets perfectly.
/// Every bracket position `p` leads to a bracket `q` of the opposite kind on
/// the proper side, and `q` leads back to `p`: the table is an involution
/// over the bracket positions.
pub proof fn lemma_jump_table_involution(code: Seq<u8>)
    requires
        balanced(code),
        code.len() <= usize::MAX,
    ensures
        jump_table(code).len() == code.len(),
        forall|p: int|
            0 <= p < code.len() && is_bracket(code[p]) ==> {
                let q = (#[trigger] jump_table(code)[p]) as int;
                &&& 0 <= q < code.len()
                &&& is_bracket(code[q])
                &&& jump_table(code)[q] as int == p
                &&& (code[p] == OP_OPEN ==> code[q] == OP_CLOSE && p < q)
                &&& (code[p] == OP_CLOSE ==> code[q] == OP_OPEN && q < p)
            },
{
    lemma_scan_invariant(code, code.len());
    let st = scan(code, code.len())->Some_0;
    let stack = st.0;
    let table = st.1;
    assert(stack.len() == 0);
    assert forall|p: int| 0 <= p < code.len() && is_bracket(code[p]) implies {
        let q = (#[trigger] jump_table(code)[p]) as int;
        &&& 0 <= q < code.len()
        &&& is_bracket(code[q])
        &&& jump_table(code)[q] as int == p
        &&& (code[p] == OP_OPEN ==> code[q] == OP_CLOSE && p < q)
        &&& (code[p] == OP_CLOSE ==> code[q] == OP_OPEN && q < p)
    } by {
        assert(!stack.contains(p as usize));
        assert(is_matched(code, code.len() as int, stack, p));
        assert(pair_ok(code, code.len() as int, stack, table, p));
    };
}

/// The jump table of a balanced program is well formed: one entry per
/// program position, every entry itself a program position.
pub proof fn lemma_jump_table_wf(code: Seq<u8>)
    requires
        balanced(code),
        code.len() <= usize::MAX,
    ensures
        wf_table(code, jump_table(code)),
{
    lemma_scan_invariant(code, code.len());
    let st = scan(code, code.len())->Some_0;
    let stack = st.0;
    let table = st.1;
    assert forall|p: int| 0 <= p < table.len() implies (#[trigger] table[p]) < code.len() by {
        if is_matched(code, code.len() as int, stack, p) {
            assert(pair_ok(code, code.len() as int, stack, table, p));
        } else {
            assert(table[p] == 0);
        }
    };
}

/// Scan the program once and pair its brackets.
///
/// Succeeds exactly on balanced programs, with the jump table the scan
/// defines; an over-closing prefix or a `[` still open at the end is the
/// structural `UnbalancedLoop` error.
pub fn build_jump_table(code: &Vec<u8>) -> (r: Result<Vec<usize>, BfError>)
    ensures
        r is Ok <==> balanced(code@),
        r matches Ok(t) ==> t@ == jump_table(code@) && wf_table(code@, t@),
        r matches Err(e) ==> e == BfError::UnbalancedLoop,
{
    let n: usize = code.len();
    let mut table: Vec<usize> = vec![0usize; n];
    let mut stack: Vec<usize> = Vec::new();
    proof {
        assert(table@ =~= Seq::new(code@.len(), |j: int| 0usize));
        assert(scan(code@, 0) == Some((stack@, table@)));
    }
    let mut i: usize = 0;
    while i < n
        invariant
            n == code@.len(),
            i <= n,
            table@.len() == n,
            scan(code@, i as nat) == Some((stack@, table@)),
        decreases n - i,
    {
        proof {
            lemma_scan_invariant(code@, i as nat);
        }
        let c: u8 = code[i];
        if c == OP_OPEN {
            stack.push(i);
            proof {
                assert(scan(code@, (i + 1) as nat) == Some((stack@, table@)));
            }
        } else if c == OP_CLOSE {
            if stack.len() == 0 {
                proof {
                    lemma_scan_invariant(code@, (i + 1) as nat);
                    assert(scan(code@, (i + 1) as nat) is None);
                    assert(!prefix_ok(code@, i + 1));
                    let j = choose|j: int|
                        0 <= j <= i + 1 && !(closes(code@, j) <= opens(code@, j));
                    assert(!(closes(code@, j) <= opens(code@, j)));
                    assert(!balanced(code@));
                }
                return Err(BfError::UnbalancedLoop);
            }
            let ghost stack0 = stack@;
            let ghost table0 = table@;
            let open: usize = stack.pop().unwrap();
            proof {
                assert(open == stack0[stack0.len() - 1]);
                assert(stack_ok(code@, i as int, stack0));
                assert(open < i);
                assert(stack@ == stack0.drop_last()) by {
                    assert(stack@ =~= stack0.drop_last());
                };
            }
            table[open] = i;
            table[i] = open;
            proof {
                assert(table@ == table0.update(open as int, i as usize).update(i as int, open));
                assert(scan(code@, (i + 1) as nat) == Some((stack@, table@)));
            }
        } else {
            proof {
                assert(scan(code@, (i + 1) as nat) == Some((stack@, table@)));
            }
        }
        i += 1;
    }
    if stack.len() > 0 {
        proof {
            lemma_scan_invariant(code@, n as nat);
            assert(opens(code@, n as int) - closes(code@, n as int) == stack@.len());
            assert(!balanced(code@));
        }
        return Err(BfError::UnbalancedLoop);
    }
    proof {
        lemma_scan_invariant(code@, n as nat);
        assert(opens(code@, n as int) == closes(code@, n as int));
        assert(balanced(code@));
        assert(jump_table(code@) == table@);
        lemma_jump_table_wf(code@);
    }
    Ok(table)
}

} // verus!
