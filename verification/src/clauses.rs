//! The rules of the analysis as a table.
//!
//! The same rules as [`crate::rules`] states, one row each, for facts of every kind: a
//! tuple given for a derived relation counts like one that was derived. A line above
//! each row shows it the way it is read; an underscore is any value, `!` is negation,
//! `#` counts, `?` tests, and `=` computes.
use vstd::prelude::*;

use crate::datalog::Arg::{Any, Nil, V};
use crate::datalog::{all_known, clauses, Clause, Lit, Rule};
use crate::ops::Op;

verus! {

// ---------------------------------------------------------------------------
// The relations
// ---------------------------------------------------------------------------

pub const PROCEDURE: usize = 0;

pub const PROC_TYPE: usize = 1;

pub const PROC_SIG: usize = 2;

pub const ENTRY: usize = 3;

pub const IN_PROC: usize = 4;

pub const ALLOC: usize = 5;

pub const ALLOC_TYPE: usize = 6;

pub const CONST_ASSIGN: usize = 7;

pub const MOV: usize = 8;

pub const LOAD_FIELD: usize = 9;

pub const STORE_FIELD: usize = 10;

pub const LOAD_STATIC: usize = 11;

pub const STORE_STATIC: usize = 12;

pub const LOAD_INDEX_CONST: usize = 13;

pub const STORE_INDEX_CONST: usize = 14;

pub const LOAD_INDEX_VAR: usize = 15;

pub const STORE_INDEX_VAR: usize = 16;

pub const DIRECT_CALL: usize = 17;

pub const VIRTUAL_CALL: usize = 18;

pub const ACTUAL_ARG: usize = 19;

pub const BIND_RET: usize = 20;

pub const FORMAL: usize = 21;

pub const RET: usize = 22;

pub const DIRECT_SUBTYPE: usize = 23;

pub const LOOKUP: usize = 24;

pub const PATHS: usize = 25;

pub const K_LIMIT: usize = 26;

pub const SIG_TARGET: usize = 27;

pub const SIG_SIZE: usize = 28;

pub const MONO_TARGET: usize = 29;

pub const EFF_DIRECT: usize = 30;

pub const CRITICAL: usize = 31;

pub const KNOWN_PROC: usize = 32;

pub const IS_CALLED: usize = 33;

pub const UNCALLED: usize = 34;

pub const EDGE: usize = 35;

pub const POINTS: usize = 36;

pub const PATH_USED: usize = 37;

pub const CRIT_ORIGIN: usize = 38;

pub const PENDING: usize = 39;

pub const CAN_PROPAGATE: usize = 40;

pub const CARRIES: usize = 41;

pub const DECISIVE_VAR: usize = 42;

pub const SLOT_FROM_FORMAL: usize = 43;

pub const WILL_PROPAGATE: usize = 44;

pub const STUCK: usize = 45;

pub const CRIT_OPERAND: usize = 46;

pub const CALL_CRIT: usize = 47;

pub const LOAD_CRIT: usize = 48;

pub const STORE_CRIT: usize = 49;

pub const INDEX_CRIT: usize = 50;

pub const DECISIVE_SLOT: usize = 51;

pub const CRIT_SIG: usize = 52;

pub const FREE_ROOT: usize = 53;

pub const PUB_ROOT: usize = 54;

pub const PUB_POINTS: usize = 55;

pub const ROOT_MAP: usize = 56;

pub const BLOCKED: usize = 57;

pub const TOP: usize = 58;

pub const RESOLVE: usize = 59;

pub const INDEX_UNDECIDABLE: usize = 60;

pub const INDEX_ACC: usize = 61;

pub const ADEQUATE: usize = 62;

pub const SETTLED: usize = 63;

// ---------------------------------------------------------------------------
// Rules: targets
// ---------------------------------------------------------------------------

/// What the facts say of targets, procedures and locals.
pub open spec fn targets_clauses() -> Seq<Clause> {
    seq![
        // sig_target sig p <- lookup _ sig p
        Clause {
            head: SIG_TARGET,
            cols: (V(0), V(1), Nil, Nil),
            body: seq![
                Lit::Has(LOOKUP, Any, V(0), V(1), Nil),
            ],
        },
        // known_proc p <- procedure p
        Clause {
            head: KNOWN_PROC,
            cols: (V(0), Nil, Nil, Nil),
            body: seq![
                Lit::Has(PROCEDURE, V(0), Nil, Nil, Nil),
            ],
        },
        // known_proc p <- in_proc _ p _
        Clause {
            head: KNOWN_PROC,
            cols: (V(0), Nil, Nil, Nil),
            body: seq![
                Lit::Has(IN_PROC, Any, V(0), Any, Nil),
            ],
        },
        // carries p v i <- formal p i v
        Clause {
            head: CARRIES,
            cols: (V(0), V(2), V(1), Nil),
            body: seq![
                Lit::Has(FORMAL, V(0), V(1), V(2), Nil),
            ],
        },
        // carries p to i <- mov s to from, in_proc s p _, carries p from i
        Clause {
            head: CARRIES,
            cols: (V(3), V(1), V(4), Nil),
            body: seq![
                Lit::Has(MOV, V(0), V(1), V(2), Nil),
                Lit::Has(IN_PROC, V(0), V(3), Any, Nil),
                Lit::Has(CARRIES, V(3), V(2), V(4), Nil),
            ],
        },
        // decisive_var s r <- virtual_call s r _
        Clause {
            head: DECISIVE_VAR,
            cols: (V(0), V(1), Nil, Nil),
            body: seq![
                Lit::Has(VIRTUAL_CALL, V(0), V(1), Any, Nil),
            ],
        },
        // decisive_var s i <- load_index_var s _ _ i
        Clause {
            head: DECISIVE_VAR,
            cols: (V(0), V(1), Nil, Nil),
            body: seq![
                Lit::Has(LOAD_INDEX_VAR, V(0), Any, Any, V(1)),
            ],
        },
        // decisive_var s i <- store_index_var s _ i _
        Clause {
            head: DECISIVE_VAR,
            cols: (V(0), V(1), Nil, Nil),
            body: seq![
                Lit::Has(STORE_INDEX_VAR, V(0), Any, V(1), Any),
            ],
        },
    ]
}

/// What the facts say of targets, procedures and locals.
fn targets_rules() -> (r: Vec<Rule>)
    ensures
        clauses(r@) == targets_clauses(),
{
    let mut r: Vec<Rule> = Vec::new();
    let body: Vec<Lit> = vec![
        Lit::Has(LOOKUP, Any, V(0), V(1), Nil),
    ];
    r.push(Rule { head: SIG_TARGET, cols: (V(0), V(1), Nil, Nil), body });
    let body: Vec<Lit> = vec![
        Lit::Has(PROCEDURE, V(0), Nil, Nil, Nil),
    ];
    r.push(Rule { head: KNOWN_PROC, cols: (V(0), Nil, Nil, Nil), body });
    let body: Vec<Lit> = vec![
        Lit::Has(IN_PROC, Any, V(0), Any, Nil),
    ];
    r.push(Rule { head: KNOWN_PROC, cols: (V(0), Nil, Nil, Nil), body });
    let body: Vec<Lit> = vec![
        Lit::Has(FORMAL, V(0), V(1), V(2), Nil),
    ];
    r.push(Rule { head: CARRIES, cols: (V(0), V(2), V(1), Nil), body });
    let body: Vec<Lit> = vec![
        Lit::Has(MOV, V(0), V(1), V(2), Nil),
        Lit::Has(IN_PROC, V(0), V(3), Any, Nil),
        Lit::Has(CARRIES, V(3), V(2), V(4), Nil),
    ];
    r.push(Rule { head: CARRIES, cols: (V(3), V(1), V(4), Nil), body });
    let body: Vec<Lit> = vec![
        Lit::Has(VIRTUAL_CALL, V(0), V(1), Any, Nil),
    ];
    r.push(Rule { head: DECISIVE_VAR, cols: (V(0), V(1), Nil, Nil), body });
    let body: Vec<Lit> = vec![
        Lit::Has(LOAD_INDEX_VAR, V(0), Any, Any, V(1)),
    ];
    r.push(Rule { head: DECISIVE_VAR, cols: (V(0), V(1), Nil, Nil), body });
    let body: Vec<Lit> = vec![
        Lit::Has(STORE_INDEX_VAR, V(0), Any, V(1), Any),
    ];
    r.push(Rule { head: DECISIVE_VAR, cols: (V(0), V(1), Nil, Nil), body });
    proof {
        let s = targets_clauses();
        assert(r@[0]@ =~= s[0]);
        assert(r@[1]@ =~= s[1]);
        assert(r@[2]@ =~= s[2]);
        assert(r@[3]@ =~= s[3]);
        assert(r@[4]@ =~= s[4]);
        assert(r@[5]@ =~= s[5]);
        assert(r@[6]@ =~= s[6]);
        assert(r@[7]@ =~= s[7]);
        assert(clauses(r@) =~= s);
    }
    r
}

// ---------------------------------------------------------------------------
// Rules: sizes
// ---------------------------------------------------------------------------

/// How many targets a signature has.
pub open spec fn sizes_clauses() -> Seq<Clause> {
    seq![
        // sig_size sig n <- virtual_call _ _ sig, n # sig_target sig _
        Clause {
            head: SIG_SIZE,
            cols: (V(0), V(1), Nil, Nil),
            body: seq![
                Lit::Has(VIRTUAL_CALL, Any, Any, V(0), Nil),
                Lit::Count(V(1), SIG_TARGET, V(0), Any, Nil, Nil),
            ],
        },
    ]
}

/// How many targets a signature has.
fn sizes_rules() -> (r: Vec<Rule>)
    ensures
        clauses(r@) == sizes_clauses(),
{
    let mut r: Vec<Rule> = Vec::new();
    let body: Vec<Lit> = vec![
        Lit::Has(VIRTUAL_CALL, Any, Any, V(0), Nil),
        Lit::Count(V(1), SIG_TARGET, V(0), Any, Nil, Nil),
    ];
    r.push(Rule { head: SIG_SIZE, cols: (V(0), V(1), Nil, Nil), body });
    proof {
        let s = sizes_clauses();
        assert(r@[0]@ =~= s[0]);
        assert(clauses(r@) =~= s);
    }
    r
}

// ---------------------------------------------------------------------------
// Rules: calls
// ---------------------------------------------------------------------------

/// Which calls are direct, which statements critical, and what is certain to move.
pub open spec fn calls_clauses() -> Seq<Clause> {
    seq![
        // mono_target s p <- virtual_call s _ sig, one = One, sig_size sig one, sig_target sig
        //     p
        Clause {
            head: MONO_TARGET,
            cols: (V(0), V(3), Nil, Nil),
            body: seq![
                Lit::Has(VIRTUAL_CALL, V(0), Any, V(1), Nil),
                Lit::Let(V(2), Op::One, Nil, Nil, Nil, Nil),
                Lit::Has(SIG_SIZE, V(1), V(2), Nil, Nil),
                Lit::Has(SIG_TARGET, V(1), V(3), Nil, Nil),
            ],
        },
        // eff_direct s p <- direct_call s p
        Clause {
            head: EFF_DIRECT,
            cols: (V(0), V(1), Nil, Nil),
            body: seq![
                Lit::Has(DIRECT_CALL, V(0), V(1), Nil, Nil),
            ],
        },
        // eff_direct s p <- mono_target s p
        Clause {
            head: EFF_DIRECT,
            cols: (V(0), V(1), Nil, Nil),
            body: seq![
                Lit::Has(MONO_TARGET, V(0), V(1), Nil, Nil),
            ],
        },
        // critical s <- virtual_call s _ sig, sig_size sig n, ? Several n
        Clause {
            head: CRITICAL,
            cols: (V(0), Nil, Nil, Nil),
            body: seq![
                Lit::Has(VIRTUAL_CALL, V(0), Any, V(1), Nil),
                Lit::Has(SIG_SIZE, V(1), V(2), Nil, Nil),
                Lit::Let(Nil, Op::Several, V(2), Nil, Nil, Nil),
            ],
        },
        // critical s <- load_index_var s _ _ _
        Clause {
            head: CRITICAL,
            cols: (V(0), Nil, Nil, Nil),
            body: seq![
                Lit::Has(LOAD_INDEX_VAR, V(0), Any, Any, Any),
            ],
        },
        // critical s <- store_index_var s _ _ _
        Clause {
            head: CRITICAL,
            cols: (V(0), Nil, Nil, Nil),
            body: seq![
                Lit::Has(STORE_INDEX_VAR, V(0), Any, Any, Any),
            ],
        },
        // is_called p <- eff_direct s p, in_proc s _ _
        Clause {
            head: IS_CALLED,
            cols: (V(1), Nil, Nil, Nil),
            body: seq![
                Lit::Has(EFF_DIRECT, V(0), V(1), Nil, Nil),
                Lit::Has(IN_PROC, V(0), Any, Any, Nil),
            ],
        },
        // crit_origin p s id <- critical s, in_proc s p _, id = Origin s
        Clause {
            head: CRIT_ORIGIN,
            cols: (V(1), V(0), V(2), Nil),
            body: seq![
                Lit::Has(CRITICAL, V(0), Nil, Nil, Nil),
                Lit::Has(IN_PROC, V(0), V(1), Any, Nil),
                Lit::Let(V(2), Op::Origin, V(0), Nil, Nil, Nil),
            ],
        },
        // slot_from_formal p id i <- crit_origin p s id, decisive_var s v, carries p v i
        Clause {
            head: SLOT_FROM_FORMAL,
            cols: (V(0), V(2), V(4), Nil),
            body: seq![
                Lit::Has(CRIT_ORIGIN, V(0), V(1), V(2), Nil),
                Lit::Has(DECISIVE_VAR, V(1), V(3), Nil, Nil),
                Lit::Has(CARRIES, V(0), V(3), V(4), Nil),
            ],
        },
        // slot_from_formal q on j <- slot_from_formal p id i, eff_direct s p, in_proc s q _,
        //     actual_arg s i a, carries q a j, k_limit k, ? Below id k, on = Push id s
        Clause {
            head: SLOT_FROM_FORMAL,
            cols: (V(4), V(8), V(6), Nil),
            body: seq![
                Lit::Has(SLOT_FROM_FORMAL, V(0), V(1), V(2), Nil),
                Lit::Has(EFF_DIRECT, V(3), V(0), Nil, Nil),
                Lit::Has(IN_PROC, V(3), V(4), Any, Nil),
                Lit::Has(ACTUAL_ARG, V(3), V(2), V(5), Nil),
                Lit::Has(CARRIES, V(4), V(5), V(6), Nil),
                Lit::Has(K_LIMIT, V(7), Nil, Nil, Nil),
                Lit::Let(Nil, Op::Below, V(1), V(7), Nil, Nil),
                Lit::Let(V(8), Op::Push, V(1), V(3), Nil, Nil),
            ],
        },
        // will_propagate p id <- slot_from_formal p id _, eff_direct s p, in_proc s _ _,
        //     k_limit k, ? Below id k
        Clause {
            head: WILL_PROPAGATE,
            cols: (V(0), V(1), Nil, Nil),
            body: seq![
                Lit::Has(SLOT_FROM_FORMAL, V(0), V(1), Any, Nil),
                Lit::Has(EFF_DIRECT, V(2), V(0), Nil, Nil),
                Lit::Has(IN_PROC, V(2), Any, Any, Nil),
                Lit::Has(K_LIMIT, V(3), Nil, Nil, Nil),
                Lit::Let(Nil, Op::Below, V(1), V(3), Nil, Nil),
            ],
        },
    ]
}

/// Which calls are direct, which statements critical, and what is certain to move.
fn calls_rules() -> (r: Vec<Rule>)
    ensures
        clauses(r@) == calls_clauses(),
{
    let mut r: Vec<Rule> = Vec::new();
    let body: Vec<Lit> = vec![
        Lit::Has(VIRTUAL_CALL, V(0), Any, V(1), Nil),
        Lit::Let(V(2), Op::One, Nil, Nil, Nil, Nil),
        Lit::Has(SIG_SIZE, V(1), V(2), Nil, Nil),
        Lit::Has(SIG_TARGET, V(1), V(3), Nil, Nil),
    ];
    r.push(Rule { head: MONO_TARGET, cols: (V(0), V(3), Nil, Nil), body });
    let body: Vec<Lit> = vec![
        Lit::Has(DIRECT_CALL, V(0), V(1), Nil, Nil),
    ];
    r.push(Rule { head: EFF_DIRECT, cols: (V(0), V(1), Nil, Nil), body });
    let body: Vec<Lit> = vec![
        Lit::Has(MONO_TARGET, V(0), V(1), Nil, Nil),
    ];
    r.push(Rule { head: EFF_DIRECT, cols: (V(0), V(1), Nil, Nil), body });
    let body: Vec<Lit> = vec![
        Lit::Has(VIRTUAL_CALL, V(0), Any, V(1), Nil),
        Lit::Has(SIG_SIZE, V(1), V(2), Nil, Nil),
        Lit::Let(Nil, Op::Several, V(2), Nil, Nil, Nil),
    ];
    r.push(Rule { head: CRITICAL, cols: (V(0), Nil, Nil, Nil), body });
    let body: Vec<Lit> = vec![
        Lit::Has(LOAD_INDEX_VAR, V(0), Any, Any, Any),
    ];
    r.push(Rule { head: CRITICAL, cols: (V(0), Nil, Nil, Nil), body });
    let body: Vec<Lit> = vec![
        Lit::Has(STORE_INDEX_VAR, V(0), Any, Any, Any),
    ];
    r.push(Rule { head: CRITICAL, cols: (V(0), Nil, Nil, Nil), body });
    let body: Vec<Lit> = vec![
        Lit::Has(EFF_DIRECT, V(0), V(1), Nil, Nil),
        Lit::Has(IN_PROC, V(0), Any, Any, Nil),
    ];
    r.push(Rule { head: IS_CALLED, cols: (V(1), Nil, Nil, Nil), body });
    let body: Vec<Lit> = vec![
        Lit::Has(CRITICAL, V(0), Nil, Nil, Nil),
        Lit::Has(IN_PROC, V(0), V(1), Any, Nil),
        Lit::Let(V(2), Op::Origin, V(0), Nil, Nil, Nil),
    ];
    r.push(Rule { head: CRIT_ORIGIN, cols: (V(1), V(0), V(2), Nil), body });
    let body: Vec<Lit> = vec![
        Lit::Has(CRIT_ORIGIN, V(0), V(1), V(2), Nil),
        Lit::Has(DECISIVE_VAR, V(1), V(3), Nil, Nil),
        Lit::Has(CARRIES, V(0), V(3), V(4), Nil),
    ];
    r.push(Rule { head: SLOT_FROM_FORMAL, cols: (V(0), V(2), V(4), Nil), body });
    let body: Vec<Lit> = vec![
        Lit::Has(SLOT_FROM_FORMAL, V(0), V(1), V(2), Nil),
        Lit::Has(EFF_DIRECT, V(3), V(0), Nil, Nil),
        Lit::Has(IN_PROC, V(3), V(4), Any, Nil),
        Lit::Has(ACTUAL_ARG, V(3), V(2), V(5), Nil),
        Lit::Has(CARRIES, V(4), V(5), V(6), Nil),
        Lit::Has(K_LIMIT, V(7), Nil, Nil, Nil),
        Lit::Let(Nil, Op::Below, V(1), V(7), Nil, Nil),
        Lit::Let(V(8), Op::Push, V(1), V(3), Nil, Nil),
    ];
    r.push(Rule { head: SLOT_FROM_FORMAL, cols: (V(4), V(8), V(6), Nil), body });
    let body: Vec<Lit> = vec![
        Lit::Has(SLOT_FROM_FORMAL, V(0), V(1), Any, Nil),
        Lit::Has(EFF_DIRECT, V(2), V(0), Nil, Nil),
        Lit::Has(IN_PROC, V(2), Any, Any, Nil),
        Lit::Has(K_LIMIT, V(3), Nil, Nil, Nil),
        Lit::Let(Nil, Op::Below, V(1), V(3), Nil, Nil),
    ];
    r.push(Rule { head: WILL_PROPAGATE, cols: (V(0), V(1), Nil, Nil), body });
    proof {
        let s = calls_clauses();
        assert(r@[0]@ =~= s[0]);
        assert(r@[1]@ =~= s[1]);
        assert(r@[2]@ =~= s[2]);
        assert(r@[3]@ =~= s[3]);
        assert(r@[4]@ =~= s[4]);
        assert(r@[5]@ =~= s[5]);
        assert(r@[6]@ =~= s[6]);
        assert(r@[7]@ =~= s[7]);
        assert(r@[8]@ =~= s[8]);
        assert(r@[9]@ =~= s[9]);
        assert(r@[10]@ =~= s[10]);
        assert(clauses(r@) =~= s);
    }
    r
}

// ---------------------------------------------------------------------------
// Rules: statements
// ---------------------------------------------------------------------------

/// The fixpoint: what the statements say.
pub open spec fn statements_clauses() -> Seq<Clause> {
    seq![
        // uncalled p <- known_proc p, ! is_called p
        Clause {
            head: UNCALLED,
            cols: (V(0), Nil, Nil, Nil),
            body: seq![
                Lit::Has(KNOWN_PROC, V(0), Nil, Nil, Nil),
                Lit::Lacks(IS_CALLED, V(0), Nil, Nil, Nil),
            ],
        },
        // edge p x y <- mov s to from, in_proc s p _, rx = VarRoot to, x = Bare rx, ry =
        //     VarRoot from, y = Bare ry
        Clause {
            head: EDGE,
            cols: (V(3), V(5), V(7), Nil),
            body: seq![
                Lit::Has(MOV, V(0), V(1), V(2), Nil),
                Lit::Has(IN_PROC, V(0), V(3), Any, Nil),
                Lit::Let(V(4), Op::VarRoot, V(1), Nil, Nil, Nil),
                Lit::Let(V(5), Op::Bare, V(4), Nil, Nil, Nil),
                Lit::Let(V(6), Op::VarRoot, V(2), Nil, Nil, Nil),
                Lit::Let(V(7), Op::Bare, V(6), Nil, Nil, Nil),
            ],
        },
        // points p x v <- alloc s to l, in_proc s p _, rx = VarRoot to, x = Bare rx, v =
        //     AllocValue l
        Clause {
            head: POINTS,
            cols: (V(3), V(5), V(6), Nil),
            body: seq![
                Lit::Has(ALLOC, V(0), V(1), V(2), Nil),
                Lit::Has(IN_PROC, V(0), V(3), Any, Nil),
                Lit::Let(V(4), Op::VarRoot, V(1), Nil, Nil, Nil),
                Lit::Let(V(5), Op::Bare, V(4), Nil, Nil, Nil),
                Lit::Let(V(6), Op::AllocValue, V(2), Nil, Nil, Nil),
            ],
        },
        // points p x v <- const_assign s to c, in_proc s p _, rx = VarRoot to, x = Bare rx, v
        //     = ConstValue c
        Clause {
            head: POINTS,
            cols: (V(3), V(5), V(6), Nil),
            body: seq![
                Lit::Has(CONST_ASSIGN, V(0), V(1), V(2), Nil),
                Lit::Has(IN_PROC, V(0), V(3), Any, Nil),
                Lit::Let(V(4), Op::VarRoot, V(1), Nil, Nil, Nil),
                Lit::Let(V(5), Op::Bare, V(4), Nil, Nil, Nil),
                Lit::Let(V(6), Op::ConstValue, V(2), Nil, Nil, Nil),
            ],
        },
        // edge p x y <- load_field s to base f, in_proc s p _, rx = VarRoot to, x = Bare rx,
        //     rb = VarRoot base, b = Bare rb, y = FieldOf b f
        Clause {
            head: EDGE,
            cols: (V(4), V(6), V(9), Nil),
            body: seq![
                Lit::Has(LOAD_FIELD, V(0), V(1), V(2), V(3)),
                Lit::Has(IN_PROC, V(0), V(4), Any, Nil),
                Lit::Let(V(5), Op::VarRoot, V(1), Nil, Nil, Nil),
                Lit::Let(V(6), Op::Bare, V(5), Nil, Nil, Nil),
                Lit::Let(V(7), Op::VarRoot, V(2), Nil, Nil, Nil),
                Lit::Let(V(8), Op::Bare, V(7), Nil, Nil, Nil),
                Lit::Let(V(9), Op::FieldOf, V(8), V(3), Nil, Nil),
            ],
        },
        // edge p x y <- store_field s base f from, in_proc s p _, rb = VarRoot base, b = Bare
        //     rb, x = FieldOf b f, ry = VarRoot from, y = Bare ry
        Clause {
            head: EDGE,
            cols: (V(4), V(7), V(9), Nil),
            body: seq![
                Lit::Has(STORE_FIELD, V(0), V(1), V(2), V(3)),
                Lit::Has(IN_PROC, V(0), V(4), Any, Nil),
                Lit::Let(V(5), Op::VarRoot, V(1), Nil, Nil, Nil),
                Lit::Let(V(6), Op::Bare, V(5), Nil, Nil, Nil),
                Lit::Let(V(7), Op::FieldOf, V(6), V(2), Nil, Nil),
                Lit::Let(V(8), Op::VarRoot, V(3), Nil, Nil, Nil),
                Lit::Let(V(9), Op::Bare, V(8), Nil, Nil, Nil),
            ],
        },
        // edge p x y <- load_index_const s to base c, in_proc s p _, rx = VarRoot to, x = Bare
        //     rx, rb = VarRoot base, b = Bare rb, y = IndexOf b c
        Clause {
            head: EDGE,
            cols: (V(4), V(6), V(9), Nil),
            body: seq![
                Lit::Has(LOAD_INDEX_CONST, V(0), V(1), V(2), V(3)),
                Lit::Has(IN_PROC, V(0), V(4), Any, Nil),
                Lit::Let(V(5), Op::VarRoot, V(1), Nil, Nil, Nil),
                Lit::Let(V(6), Op::Bare, V(5), Nil, Nil, Nil),
                Lit::Let(V(7), Op::VarRoot, V(2), Nil, Nil, Nil),
                Lit::Let(V(8), Op::Bare, V(7), Nil, Nil, Nil),
                Lit::Let(V(9), Op::IndexOf, V(8), V(3), Nil, Nil),
            ],
        },
        // edge p x y <- store_index_const s base c from, in_proc s p _, rb = VarRoot base, b =
        //     Bare rb, x = IndexOf b c, ry = VarRoot from, y = Bare ry
        Clause {
            head: EDGE,
            cols: (V(4), V(7), V(9), Nil),
            body: seq![
                Lit::Has(STORE_INDEX_CONST, V(0), V(1), V(2), V(3)),
                Lit::Has(IN_PROC, V(0), V(4), Any, Nil),
                Lit::Let(V(5), Op::VarRoot, V(1), Nil, Nil, Nil),
                Lit::Let(V(6), Op::Bare, V(5), Nil, Nil, Nil),
                Lit::Let(V(7), Op::IndexOf, V(6), V(2), Nil, Nil),
                Lit::Let(V(8), Op::VarRoot, V(3), Nil, Nil, Nil),
                Lit::Let(V(9), Op::Bare, V(8), Nil, Nil, Nil),
            ],
        },
        // edge p x y <- formal p i v, rx = VarRoot v, x = Bare rx, ry = ParamRoot p i, y =
        //     Bare ry
        Clause {
            head: EDGE,
            cols: (V(0), V(4), V(6), Nil),
            body: seq![
                Lit::Has(FORMAL, V(0), V(1), V(2), Nil),
                Lit::Let(V(3), Op::VarRoot, V(2), Nil, Nil, Nil),
                Lit::Let(V(4), Op::Bare, V(3), Nil, Nil, Nil),
                Lit::Let(V(5), Op::ParamRoot, V(0), V(1), Nil, Nil),
                Lit::Let(V(6), Op::Bare, V(5), Nil, Nil, Nil),
            ],
        },
        // edge p x y <- ret p v, rx = RetRoot p, x = Bare rx, ry = VarRoot v, y = Bare ry
        Clause {
            head: EDGE,
            cols: (V(0), V(3), V(5), Nil),
            body: seq![
                Lit::Has(RET, V(0), V(1), Nil, Nil),
                Lit::Let(V(2), Op::RetRoot, V(0), Nil, Nil, Nil),
                Lit::Let(V(3), Op::Bare, V(2), Nil, Nil, Nil),
                Lit::Let(V(4), Op::VarRoot, V(1), Nil, Nil, Nil),
                Lit::Let(V(5), Op::Bare, V(4), Nil, Nil, Nil),
            ],
        },
    ]
}

/// The fixpoint: what the statements say.
fn statements_rules() -> (r: Vec<Rule>)
    ensures
        clauses(r@) == statements_clauses(),
{
    let mut r: Vec<Rule> = Vec::new();
    let body: Vec<Lit> = vec![
        Lit::Has(KNOWN_PROC, V(0), Nil, Nil, Nil),
        Lit::Lacks(IS_CALLED, V(0), Nil, Nil, Nil),
    ];
    r.push(Rule { head: UNCALLED, cols: (V(0), Nil, Nil, Nil), body });
    let body: Vec<Lit> = vec![
        Lit::Has(MOV, V(0), V(1), V(2), Nil),
        Lit::Has(IN_PROC, V(0), V(3), Any, Nil),
        Lit::Let(V(4), Op::VarRoot, V(1), Nil, Nil, Nil),
        Lit::Let(V(5), Op::Bare, V(4), Nil, Nil, Nil),
        Lit::Let(V(6), Op::VarRoot, V(2), Nil, Nil, Nil),
        Lit::Let(V(7), Op::Bare, V(6), Nil, Nil, Nil),
    ];
    r.push(Rule { head: EDGE, cols: (V(3), V(5), V(7), Nil), body });
    let body: Vec<Lit> = vec![
        Lit::Has(ALLOC, V(0), V(1), V(2), Nil),
        Lit::Has(IN_PROC, V(0), V(3), Any, Nil),
        Lit::Let(V(4), Op::VarRoot, V(1), Nil, Nil, Nil),
        Lit::Let(V(5), Op::Bare, V(4), Nil, Nil, Nil),
        Lit::Let(V(6), Op::AllocValue, V(2), Nil, Nil, Nil),
    ];
    r.push(Rule { head: POINTS, cols: (V(3), V(5), V(6), Nil), body });
    let body: Vec<Lit> = vec![
        Lit::Has(CONST_ASSIGN, V(0), V(1), V(2), Nil),
        Lit::Has(IN_PROC, V(0), V(3), Any, Nil),
        Lit::Let(V(4), Op::VarRoot, V(1), Nil, Nil, Nil),
        Lit::Let(V(5), Op::Bare, V(4), Nil, Nil, Nil),
        Lit::Let(V(6), Op::ConstValue, V(2), Nil, Nil, Nil),
    ];
    r.push(Rule { head: POINTS, cols: (V(3), V(5), V(6), Nil), body });
    let body: Vec<Lit> = vec![
        Lit::Has(LOAD_FIELD, V(0), V(1), V(2), V(3)),
        Lit::Has(IN_PROC, V(0), V(4), Any, Nil),
        Lit::Let(V(5), Op::VarRoot, V(1), Nil, Nil, Nil),
        Lit::Let(V(6), Op::Bare, V(5), Nil, Nil, Nil),
        Lit::Let(V(7), Op::VarRoot, V(2), Nil, Nil, Nil),
        Lit::Let(V(8), Op::Bare, V(7), Nil, Nil, Nil),
        Lit::Let(V(9), Op::FieldOf, V(8), V(3), Nil, Nil),
    ];
    r.push(Rule { head: EDGE, cols: (V(4), V(6), V(9), Nil), body });
    let body: Vec<Lit> = vec![
        Lit::Has(STORE_FIELD, V(0), V(1), V(2), V(3)),
        Lit::Has(IN_PROC, V(0), V(4), Any, Nil),
        Lit::Let(V(5), Op::VarRoot, V(1), Nil, Nil, Nil),
        Lit::Let(V(6), Op::Bare, V(5), Nil, Nil, Nil),
        Lit::Let(V(7), Op::FieldOf, V(6), V(2), Nil, Nil),
        Lit::Let(V(8), Op::VarRoot, V(3), Nil, Nil, Nil),
        Lit::Let(V(9), Op::Bare, V(8), Nil, Nil, Nil),
    ];
    r.push(Rule { head: EDGE, cols: (V(4), V(7), V(9), Nil), body });
    let body: Vec<Lit> = vec![
        Lit::Has(LOAD_INDEX_CONST, V(0), V(1), V(2), V(3)),
        Lit::Has(IN_PROC, V(0), V(4), Any, Nil),
        Lit::Let(V(5), Op::VarRoot, V(1), Nil, Nil, Nil),
        Lit::Let(V(6), Op::Bare, V(5), Nil, Nil, Nil),
        Lit::Let(V(7), Op::VarRoot, V(2), Nil, Nil, Nil),
        Lit::Let(V(8), Op::Bare, V(7), Nil, Nil, Nil),
        Lit::Let(V(9), Op::IndexOf, V(8), V(3), Nil, Nil),
    ];
    r.push(Rule { head: EDGE, cols: (V(4), V(6), V(9), Nil), body });
    let body: Vec<Lit> = vec![
        Lit::Has(STORE_INDEX_CONST, V(0), V(1), V(2), V(3)),
        Lit::Has(IN_PROC, V(0), V(4), Any, Nil),
        Lit::Let(V(5), Op::VarRoot, V(1), Nil, Nil, Nil),
        Lit::Let(V(6), Op::Bare, V(5), Nil, Nil, Nil),
        Lit::Let(V(7), Op::IndexOf, V(6), V(2), Nil, Nil),
        Lit::Let(V(8), Op::VarRoot, V(3), Nil, Nil, Nil),
        Lit::Let(V(9), Op::Bare, V(8), Nil, Nil, Nil),
    ];
    r.push(Rule { head: EDGE, cols: (V(4), V(7), V(9), Nil), body });
    let body: Vec<Lit> = vec![
        Lit::Has(FORMAL, V(0), V(1), V(2), Nil),
        Lit::Let(V(3), Op::VarRoot, V(2), Nil, Nil, Nil),
        Lit::Let(V(4), Op::Bare, V(3), Nil, Nil, Nil),
        Lit::Let(V(5), Op::ParamRoot, V(0), V(1), Nil, Nil),
        Lit::Let(V(6), Op::Bare, V(5), Nil, Nil, Nil),
    ];
    r.push(Rule { head: EDGE, cols: (V(0), V(4), V(6), Nil), body });
    let body: Vec<Lit> = vec![
        Lit::Has(RET, V(0), V(1), Nil, Nil),
        Lit::Let(V(2), Op::RetRoot, V(0), Nil, Nil, Nil),
        Lit::Let(V(3), Op::Bare, V(2), Nil, Nil, Nil),
        Lit::Let(V(4), Op::VarRoot, V(1), Nil, Nil, Nil),
        Lit::Let(V(5), Op::Bare, V(4), Nil, Nil, Nil),
    ];
    r.push(Rule { head: EDGE, cols: (V(0), V(3), V(5), Nil), body });
    proof {
        let s = statements_clauses();
        assert(r@[0]@ =~= s[0]);
        assert(r@[1]@ =~= s[1]);
        assert(r@[2]@ =~= s[2]);
        assert(r@[3]@ =~= s[3]);
        assert(r@[4]@ =~= s[4]);
        assert(r@[5]@ =~= s[5]);
        assert(r@[6]@ =~= s[6]);
        assert(r@[7]@ =~= s[7]);
        assert(r@[8]@ =~= s[8]);
        assert(r@[9]@ =~= s[9]);
        assert(clauses(r@) =~= s);
    }
    r
}

// ---------------------------------------------------------------------------
// Rules: flow
// ---------------------------------------------------------------------------

/// The fixpoint: what flows, and suffix congruence.
pub open spec fn flow_clauses() -> Seq<Clause> {
    seq![
        // points p sup v <- edge p sup sub, points p sub v
        Clause {
            head: POINTS,
            cols: (V(0), V(1), V(3), Nil),
            body: seq![
                Lit::Has(EDGE, V(0), V(1), V(2), Nil),
                Lit::Has(POINTS, V(0), V(2), V(3), Nil),
            ],
        },
        // points p sup v <- edge p sup sub, ? Symbolic sub, v = PathValue sub
        Clause {
            head: POINTS,
            cols: (V(0), V(1), V(3), Nil),
            body: seq![
                Lit::Has(EDGE, V(0), V(1), V(2), Nil),
                Lit::Let(Nil, Op::Symbolic, V(2), Nil, Nil, Nil),
                Lit::Let(V(3), Op::PathValue, V(2), Nil, Nil, Nil),
            ],
        },
        // path_used p r a <- edge p a _, r = RootOf a
        Clause {
            head: PATH_USED,
            cols: (V(0), V(2), V(1), Nil),
            body: seq![
                Lit::Has(EDGE, V(0), V(1), Any, Nil),
                Lit::Let(V(2), Op::RootOf, V(1), Nil, Nil, Nil),
            ],
        },
        // path_used p r b <- edge p _ b, r = RootOf b
        Clause {
            head: PATH_USED,
            cols: (V(0), V(2), V(1), Nil),
            body: seq![
                Lit::Has(EDGE, V(0), Any, V(1), Nil),
                Lit::Let(V(2), Op::RootOf, V(1), Nil, Nil, Nil),
            ],
        },
        // path_used p r a <- points p a _, r = RootOf a
        Clause {
            head: PATH_USED,
            cols: (V(0), V(2), V(1), Nil),
            body: seq![
                Lit::Has(POINTS, V(0), V(1), Any, Nil),
                Lit::Let(V(2), Op::RootOf, V(1), Nil, Nil, Nil),
            ],
        },
        // edge p longer x <- edge p sup sub, r = RootOf sup, path_used p r longer, x = Extend
        //     sup sub longer, t = StepsOf x, paths t
        Clause {
            head: EDGE,
            cols: (V(0), V(4), V(5), Nil),
            body: seq![
                Lit::Has(EDGE, V(0), V(1), V(2), Nil),
                Lit::Let(V(3), Op::RootOf, V(1), Nil, Nil, Nil),
                Lit::Has(PATH_USED, V(0), V(3), V(4), Nil),
                Lit::Let(V(5), Op::Extend, V(1), V(2), V(4), Nil),
                Lit::Let(V(6), Op::StepsOf, V(5), Nil, Nil, Nil),
                Lit::Has(PATHS, V(6), Nil, Nil, Nil),
            ],
        },
        // edge p x longer <- edge p sup sub, r = RootOf sub, path_used p r longer, x = Extend
        //     sub sup longer, t = StepsOf x, paths t
        Clause {
            head: EDGE,
            cols: (V(0), V(5), V(4), Nil),
            body: seq![
                Lit::Has(EDGE, V(0), V(1), V(2), Nil),
                Lit::Let(V(3), Op::RootOf, V(2), Nil, Nil, Nil),
                Lit::Has(PATH_USED, V(0), V(3), V(4), Nil),
                Lit::Let(V(5), Op::Extend, V(2), V(1), V(4), Nil),
                Lit::Let(V(6), Op::StepsOf, V(5), Nil, Nil, Nil),
                Lit::Has(PATHS, V(6), Nil, Nil, Nil),
            ],
        },
    ]
}

/// The fixpoint: what flows, and suffix congruence.
fn flow_rules() -> (r: Vec<Rule>)
    ensures
        clauses(r@) == flow_clauses(),
{
    let mut r: Vec<Rule> = Vec::new();
    let body: Vec<Lit> = vec![
        Lit::Has(EDGE, V(0), V(1), V(2), Nil),
        Lit::Has(POINTS, V(0), V(2), V(3), Nil),
    ];
    r.push(Rule { head: POINTS, cols: (V(0), V(1), V(3), Nil), body });
    let body: Vec<Lit> = vec![
        Lit::Has(EDGE, V(0), V(1), V(2), Nil),
        Lit::Let(Nil, Op::Symbolic, V(2), Nil, Nil, Nil),
        Lit::Let(V(3), Op::PathValue, V(2), Nil, Nil, Nil),
    ];
    r.push(Rule { head: POINTS, cols: (V(0), V(1), V(3), Nil), body });
    let body: Vec<Lit> = vec![
        Lit::Has(EDGE, V(0), V(1), Any, Nil),
        Lit::Let(V(2), Op::RootOf, V(1), Nil, Nil, Nil),
    ];
    r.push(Rule { head: PATH_USED, cols: (V(0), V(2), V(1), Nil), body });
    let body: Vec<Lit> = vec![
        Lit::Has(EDGE, V(0), Any, V(1), Nil),
        Lit::Let(V(2), Op::RootOf, V(1), Nil, Nil, Nil),
    ];
    r.push(Rule { head: PATH_USED, cols: (V(0), V(2), V(1), Nil), body });
    let body: Vec<Lit> = vec![
        Lit::Has(POINTS, V(0), V(1), Any, Nil),
        Lit::Let(V(2), Op::RootOf, V(1), Nil, Nil, Nil),
    ];
    r.push(Rule { head: PATH_USED, cols: (V(0), V(2), V(1), Nil), body });
    let body: Vec<Lit> = vec![
        Lit::Has(EDGE, V(0), V(1), V(2), Nil),
        Lit::Let(V(3), Op::RootOf, V(1), Nil, Nil, Nil),
        Lit::Has(PATH_USED, V(0), V(3), V(4), Nil),
        Lit::Let(V(5), Op::Extend, V(1), V(2), V(4), Nil),
        Lit::Let(V(6), Op::StepsOf, V(5), Nil, Nil, Nil),
        Lit::Has(PATHS, V(6), Nil, Nil, Nil),
    ];
    r.push(Rule { head: EDGE, cols: (V(0), V(4), V(5), Nil), body });
    let body: Vec<Lit> = vec![
        Lit::Has(EDGE, V(0), V(1), V(2), Nil),
        Lit::Let(V(3), Op::RootOf, V(2), Nil, Nil, Nil),
        Lit::Has(PATH_USED, V(0), V(3), V(4), Nil),
        Lit::Let(V(5), Op::Extend, V(2), V(1), V(4), Nil),
        Lit::Let(V(6), Op::StepsOf, V(5), Nil, Nil, Nil),
        Lit::Has(PATHS, V(6), Nil, Nil, Nil),
    ];
    r.push(Rule { head: EDGE, cols: (V(0), V(5), V(4), Nil), body });
    proof {
        let s = flow_clauses();
        assert(r@[0]@ =~= s[0]);
        assert(r@[1]@ =~= s[1]);
        assert(r@[2]@ =~= s[2]);
        assert(r@[3]@ =~= s[3]);
        assert(r@[4]@ =~= s[4]);
        assert(r@[5]@ =~= s[5]);
        assert(r@[6]@ =~= s[6]);
        assert(clauses(r@) =~= s);
    }
    r
}

// ---------------------------------------------------------------------------
// Rules: placeholders
// ---------------------------------------------------------------------------

/// The fixpoint: pending critical statements.
pub open spec fn placeholders_clauses() -> Seq<Clause> {
    seq![
        // pending p id <- crit_origin p _ id
        Clause {
            head: PENDING,
            cols: (V(0), V(1), Nil, Nil),
            body: seq![
                Lit::Has(CRIT_ORIGIN, V(0), Any, V(1), Nil),
            ],
        },
        // edge p x y <- crit_origin p s id, actual_arg s i a, rx = SlotRoot id i, x = Bare rx,
        //     ry = VarRoot a, y = Bare ry
        Clause {
            head: EDGE,
            cols: (V(0), V(6), V(8), Nil),
            body: seq![
                Lit::Has(CRIT_ORIGIN, V(0), V(1), V(2), Nil),
                Lit::Has(ACTUAL_ARG, V(1), V(3), V(4), Nil),
                Lit::Let(V(5), Op::SlotRoot, V(2), V(3), Nil, Nil),
                Lit::Let(V(6), Op::Bare, V(5), Nil, Nil, Nil),
                Lit::Let(V(7), Op::VarRoot, V(4), Nil, Nil, Nil),
                Lit::Let(V(8), Op::Bare, V(7), Nil, Nil, Nil),
            ],
        },
        // edge p x y <- crit_origin p s id, bind_ret s r, rx = VarRoot r, x = Bare rx, ry =
        //     ResRoot id, y = Bare ry
        Clause {
            head: EDGE,
            cols: (V(0), V(5), V(7), Nil),
            body: seq![
                Lit::Has(CRIT_ORIGIN, V(0), V(1), V(2), Nil),
                Lit::Has(BIND_RET, V(1), V(3), Nil, Nil),
                Lit::Let(V(4), Op::VarRoot, V(3), Nil, Nil, Nil),
                Lit::Let(V(5), Op::Bare, V(4), Nil, Nil, Nil),
                Lit::Let(V(6), Op::ResRoot, V(2), Nil, Nil, Nil),
                Lit::Let(V(7), Op::Bare, V(6), Nil, Nil, Nil),
            ],
        },
        // edge p x y <- crit_origin p s id, load_index_var s _ base _, n = Zero, rx = SlotRoot
        //     id n, x = Bare rx, ry = VarRoot base, y = Bare ry
        Clause {
            head: EDGE,
            cols: (V(0), V(6), V(8), Nil),
            body: seq![
                Lit::Has(CRIT_ORIGIN, V(0), V(1), V(2), Nil),
                Lit::Has(LOAD_INDEX_VAR, V(1), Any, V(3), Any),
                Lit::Let(V(4), Op::Zero, Nil, Nil, Nil, Nil),
                Lit::Let(V(5), Op::SlotRoot, V(2), V(4), Nil, Nil),
                Lit::Let(V(6), Op::Bare, V(5), Nil, Nil, Nil),
                Lit::Let(V(7), Op::VarRoot, V(3), Nil, Nil, Nil),
                Lit::Let(V(8), Op::Bare, V(7), Nil, Nil, Nil),
            ],
        },
        // edge p x y <- crit_origin p s id, load_index_var s _ _ i, n = One, rx = SlotRoot id
        //     n, x = Bare rx, ry = VarRoot i, y = Bare ry
        Clause {
            head: EDGE,
            cols: (V(0), V(6), V(8), Nil),
            body: seq![
                Lit::Has(CRIT_ORIGIN, V(0), V(1), V(2), Nil),
                Lit::Has(LOAD_INDEX_VAR, V(1), Any, Any, V(3)),
                Lit::Let(V(4), Op::One, Nil, Nil, Nil, Nil),
                Lit::Let(V(5), Op::SlotRoot, V(2), V(4), Nil, Nil),
                Lit::Let(V(6), Op::Bare, V(5), Nil, Nil, Nil),
                Lit::Let(V(7), Op::VarRoot, V(3), Nil, Nil, Nil),
                Lit::Let(V(8), Op::Bare, V(7), Nil, Nil, Nil),
            ],
        },
        // edge p x y <- crit_origin p s id, load_index_var s to _ _, rx = VarRoot to, x = Bare
        //     rx, ry = ResRoot id, y = Bare ry
        Clause {
            head: EDGE,
            cols: (V(0), V(5), V(7), Nil),
            body: seq![
                Lit::Has(CRIT_ORIGIN, V(0), V(1), V(2), Nil),
                Lit::Has(LOAD_INDEX_VAR, V(1), V(3), Any, Any),
                Lit::Let(V(4), Op::VarRoot, V(3), Nil, Nil, Nil),
                Lit::Let(V(5), Op::Bare, V(4), Nil, Nil, Nil),
                Lit::Let(V(6), Op::ResRoot, V(2), Nil, Nil, Nil),
                Lit::Let(V(7), Op::Bare, V(6), Nil, Nil, Nil),
            ],
        },
        // edge p x y <- crit_origin p s id, store_index_var s base _ _, n = Zero, rx =
        //     SlotRoot id n, x = Bare rx, ry = VarRoot base, y = Bare ry
        Clause {
            head: EDGE,
            cols: (V(0), V(6), V(8), Nil),
            body: seq![
                Lit::Has(CRIT_ORIGIN, V(0), V(1), V(2), Nil),
                Lit::Has(STORE_INDEX_VAR, V(1), V(3), Any, Any),
                Lit::Let(V(4), Op::Zero, Nil, Nil, Nil, Nil),
                Lit::Let(V(5), Op::SlotRoot, V(2), V(4), Nil, Nil),
                Lit::Let(V(6), Op::Bare, V(5), Nil, Nil, Nil),
                Lit::Let(V(7), Op::VarRoot, V(3), Nil, Nil, Nil),
                Lit::Let(V(8), Op::Bare, V(7), Nil, Nil, Nil),
            ],
        },
        // edge p x y <- crit_origin p s id, store_index_var s _ i _, n = One, rx = SlotRoot id
        //     n, x = Bare rx, ry = VarRoot i, y = Bare ry
        Clause {
            head: EDGE,
            cols: (V(0), V(6), V(8), Nil),
            body: seq![
                Lit::Has(CRIT_ORIGIN, V(0), V(1), V(2), Nil),
                Lit::Has(STORE_INDEX_VAR, V(1), Any, V(3), Any),
                Lit::Let(V(4), Op::One, Nil, Nil, Nil, Nil),
                Lit::Let(V(5), Op::SlotRoot, V(2), V(4), Nil, Nil),
                Lit::Let(V(6), Op::Bare, V(5), Nil, Nil, Nil),
                Lit::Let(V(7), Op::VarRoot, V(3), Nil, Nil, Nil),
                Lit::Let(V(8), Op::Bare, V(7), Nil, Nil, Nil),
            ],
        },
        // edge p x y <- crit_origin p s id, store_index_var s _ _ from, n = Two, rx = SlotRoot
        //     id n, x = Bare rx, ry = VarRoot from, y = Bare ry
        Clause {
            head: EDGE,
            cols: (V(0), V(6), V(8), Nil),
            body: seq![
                Lit::Has(CRIT_ORIGIN, V(0), V(1), V(2), Nil),
                Lit::Has(STORE_INDEX_VAR, V(1), Any, Any, V(3)),
                Lit::Let(V(4), Op::Two, Nil, Nil, Nil, Nil),
                Lit::Let(V(5), Op::SlotRoot, V(2), V(4), Nil, Nil),
                Lit::Let(V(6), Op::Bare, V(5), Nil, Nil, Nil),
                Lit::Let(V(7), Op::VarRoot, V(3), Nil, Nil, Nil),
                Lit::Let(V(8), Op::Bare, V(7), Nil, Nil, Nil),
            ],
        },
        // pending q on <- pending p id, blocked p id, eff_direct s p, in_proc s q _, k_limit
        //     k, ? Below id k, on = Push id s
        Clause {
            head: PENDING,
            cols: (V(3), V(5), Nil, Nil),
            body: seq![
                Lit::Has(PENDING, V(0), V(1), Nil, Nil),
                Lit::Has(BLOCKED, V(0), V(1), Nil, Nil),
                Lit::Has(EFF_DIRECT, V(2), V(0), Nil, Nil),
                Lit::Has(IN_PROC, V(2), V(3), Any, Nil),
                Lit::Has(K_LIMIT, V(4), Nil, Nil, Nil),
                Lit::Let(Nil, Op::Below, V(1), V(4), Nil, Nil),
                Lit::Let(V(5), Op::Push, V(1), V(2), Nil, Nil),
            ],
        },
        // can_propagate p id <- pending p id, eff_direct s p, in_proc s _ _, k_limit k, ?
        //     Below id k
        Clause {
            head: CAN_PROPAGATE,
            cols: (V(0), V(1), Nil, Nil),
            body: seq![
                Lit::Has(PENDING, V(0), V(1), Nil, Nil),
                Lit::Has(EFF_DIRECT, V(2), V(0), Nil, Nil),
                Lit::Has(IN_PROC, V(2), Any, Any, Nil),
                Lit::Has(K_LIMIT, V(3), Nil, Nil, Nil),
                Lit::Let(Nil, Op::Below, V(1), V(3), Nil, Nil),
            ],
        },
        // stuck p id <- pending p id, uncalled p
        Clause {
            head: STUCK,
            cols: (V(0), V(1), Nil, Nil),
            body: seq![
                Lit::Has(PENDING, V(0), V(1), Nil, Nil),
                Lit::Has(UNCALLED, V(0), Nil, Nil, Nil),
            ],
        },
        // stuck p id <- pending p id, entry p
        Clause {
            head: STUCK,
            cols: (V(0), V(1), Nil, Nil),
            body: seq![
                Lit::Has(PENDING, V(0), V(1), Nil, Nil),
                Lit::Has(ENTRY, V(0), Nil, Nil, Nil),
            ],
        },
        // stuck p id <- pending p id, k_limit k, ? AtLimit id k
        Clause {
            head: STUCK,
            cols: (V(0), V(1), Nil, Nil),
            body: seq![
                Lit::Has(PENDING, V(0), V(1), Nil, Nil),
                Lit::Has(K_LIMIT, V(2), Nil, Nil, Nil),
                Lit::Let(Nil, Op::AtLimit, V(1), V(2), Nil, Nil),
            ],
        },
        // crit_operand id i <- pending _ id, s = StmtOf id, actual_arg s i _
        Clause {
            head: CRIT_OPERAND,
            cols: (V(0), V(2), Nil, Nil),
            body: seq![
                Lit::Has(PENDING, Any, V(0), Nil, Nil),
                Lit::Let(V(1), Op::StmtOf, V(0), Nil, Nil, Nil),
                Lit::Has(ACTUAL_ARG, V(1), V(2), Any, Nil),
            ],
        },
        // crit_operand id n <- index_crit id, n = Zero
        Clause {
            head: CRIT_OPERAND,
            cols: (V(0), V(1), Nil, Nil),
            body: seq![
                Lit::Has(INDEX_CRIT, V(0), Nil, Nil, Nil),
                Lit::Let(V(1), Op::Zero, Nil, Nil, Nil, Nil),
            ],
        },
        // crit_operand id n <- index_crit id, n = One
        Clause {
            head: CRIT_OPERAND,
            cols: (V(0), V(1), Nil, Nil),
            body: seq![
                Lit::Has(INDEX_CRIT, V(0), Nil, Nil, Nil),
                Lit::Let(V(1), Op::One, Nil, Nil, Nil, Nil),
            ],
        },
        // crit_operand id n <- store_crit id, n = Two
        Clause {
            head: CRIT_OPERAND,
            cols: (V(0), V(1), Nil, Nil),
            body: seq![
                Lit::Has(STORE_CRIT, V(0), Nil, Nil, Nil),
                Lit::Let(V(1), Op::Two, Nil, Nil, Nil, Nil),
            ],
        },
        // call_crit id <- pending _ id, s = StmtOf id, virtual_call s _ _
        Clause {
            head: CALL_CRIT,
            cols: (V(0), Nil, Nil, Nil),
            body: seq![
                Lit::Has(PENDING, Any, V(0), Nil, Nil),
                Lit::Let(V(1), Op::StmtOf, V(0), Nil, Nil, Nil),
                Lit::Has(VIRTUAL_CALL, V(1), Any, Any, Nil),
            ],
        },
        // load_crit id <- pending _ id, s = StmtOf id, load_index_var s _ _ _
        Clause {
            head: LOAD_CRIT,
            cols: (V(0), Nil, Nil, Nil),
            body: seq![
                Lit::Has(PENDING, Any, V(0), Nil, Nil),
                Lit::Let(V(1), Op::StmtOf, V(0), Nil, Nil, Nil),
                Lit::Has(LOAD_INDEX_VAR, V(1), Any, Any, Any),
            ],
        },
        // store_crit id <- pending _ id, s = StmtOf id, store_index_var s _ _ _
        Clause {
            head: STORE_CRIT,
            cols: (V(0), Nil, Nil, Nil),
            body: seq![
                Lit::Has(PENDING, Any, V(0), Nil, Nil),
                Lit::Let(V(1), Op::StmtOf, V(0), Nil, Nil, Nil),
                Lit::Has(STORE_INDEX_VAR, V(1), Any, Any, Any),
            ],
        },
        // index_crit id <- load_crit id
        Clause {
            head: INDEX_CRIT,
            cols: (V(0), Nil, Nil, Nil),
            body: seq![
                Lit::Has(LOAD_CRIT, V(0), Nil, Nil, Nil),
            ],
        },
        // index_crit id <- store_crit id
        Clause {
            head: INDEX_CRIT,
            cols: (V(0), Nil, Nil, Nil),
            body: seq![
                Lit::Has(STORE_CRIT, V(0), Nil, Nil, Nil),
            ],
        },
        // decisive_slot id n <- call_crit id, n = Zero
        Clause {
            head: DECISIVE_SLOT,
            cols: (V(0), V(1), Nil, Nil),
            body: seq![
                Lit::Has(CALL_CRIT, V(0), Nil, Nil, Nil),
                Lit::Let(V(1), Op::Zero, Nil, Nil, Nil, Nil),
            ],
        },
        // decisive_slot id n <- index_crit id, n = One
        Clause {
            head: DECISIVE_SLOT,
            cols: (V(0), V(1), Nil, Nil),
            body: seq![
                Lit::Has(INDEX_CRIT, V(0), Nil, Nil, Nil),
                Lit::Let(V(1), Op::One, Nil, Nil, Nil, Nil),
            ],
        },
        // crit_sig id sig <- pending _ id, s = StmtOf id, virtual_call s _ sig
        Clause {
            head: CRIT_SIG,
            cols: (V(0), V(2), Nil, Nil),
            body: seq![
                Lit::Has(PENDING, Any, V(0), Nil, Nil),
                Lit::Let(V(1), Op::StmtOf, V(0), Nil, Nil, Nil),
                Lit::Has(VIRTUAL_CALL, V(1), Any, V(2), Nil),
            ],
        },
    ]
}

/// The fixpoint: pending critical statements.
fn placeholders_rules() -> (r: Vec<Rule>)
    ensures
        clauses(r@) == placeholders_clauses(),
{
    let mut r: Vec<Rule> = Vec::new();
    let body: Vec<Lit> = vec![
        Lit::Has(CRIT_ORIGIN, V(0), Any, V(1), Nil),
    ];
    r.push(Rule { head: PENDING, cols: (V(0), V(1), Nil, Nil), body });
    let body: Vec<Lit> = vec![
        Lit::Has(CRIT_ORIGIN, V(0), V(1), V(2), Nil),
        Lit::Has(ACTUAL_ARG, V(1), V(3), V(4), Nil),
        Lit::Let(V(5), Op::SlotRoot, V(2), V(3), Nil, Nil),
        Lit::Let(V(6), Op::Bare, V(5), Nil, Nil, Nil),
        Lit::Let(V(7), Op::VarRoot, V(4), Nil, Nil, Nil),
        Lit::Let(V(8), Op::Bare, V(7), Nil, Nil, Nil),
    ];
    r.push(Rule { head: EDGE, cols: (V(0), V(6), V(8), Nil), body });
    let body: Vec<Lit> = vec![
        Lit::Has(CRIT_ORIGIN, V(0), V(1), V(2), Nil),
        Lit::Has(BIND_RET, V(1), V(3), Nil, Nil),
        Lit::Let(V(4), Op::VarRoot, V(3), Nil, Nil, Nil),
        Lit::Let(V(5), Op::Bare, V(4), Nil, Nil, Nil),
        Lit::Let(V(6), Op::ResRoot, V(2), Nil, Nil, Nil),
        Lit::Let(V(7), Op::Bare, V(6), Nil, Nil, Nil),
    ];
    r.push(Rule { head: EDGE, cols: (V(0), V(5), V(7), Nil), body });
    let body: Vec<Lit> = vec![
        Lit::Has(CRIT_ORIGIN, V(0), V(1), V(2), Nil),
        Lit::Has(LOAD_INDEX_VAR, V(1), Any, V(3), Any),
        Lit::Let(V(4), Op::Zero, Nil, Nil, Nil, Nil),
        Lit::Let(V(5), Op::SlotRoot, V(2), V(4), Nil, Nil),
        Lit::Let(V(6), Op::Bare, V(5), Nil, Nil, Nil),
        Lit::Let(V(7), Op::VarRoot, V(3), Nil, Nil, Nil),
        Lit::Let(V(8), Op::Bare, V(7), Nil, Nil, Nil),
    ];
    r.push(Rule { head: EDGE, cols: (V(0), V(6), V(8), Nil), body });
    let body: Vec<Lit> = vec![
        Lit::Has(CRIT_ORIGIN, V(0), V(1), V(2), Nil),
        Lit::Has(LOAD_INDEX_VAR, V(1), Any, Any, V(3)),
        Lit::Let(V(4), Op::One, Nil, Nil, Nil, Nil),
        Lit::Let(V(5), Op::SlotRoot, V(2), V(4), Nil, Nil),
        Lit::Let(V(6), Op::Bare, V(5), Nil, Nil, Nil),
        Lit::Let(V(7), Op::VarRoot, V(3), Nil, Nil, Nil),
        Lit::Let(V(8), Op::Bare, V(7), Nil, Nil, Nil),
    ];
    r.push(Rule { head: EDGE, cols: (V(0), V(6), V(8), Nil), body });
    let body: Vec<Lit> = vec![
        Lit::Has(CRIT_ORIGIN, V(0), V(1), V(2), Nil),
        Lit::Has(LOAD_INDEX_VAR, V(1), V(3), Any, Any),
        Lit::Let(V(4), Op::VarRoot, V(3), Nil, Nil, Nil),
        Lit::Let(V(5), Op::Bare, V(4), Nil, Nil, Nil),
        Lit::Let(V(6), Op::ResRoot, V(2), Nil, Nil, Nil),
        Lit::Let(V(7), Op::Bare, V(6), Nil, Nil, Nil),
    ];
    r.push(Rule { head: EDGE, cols: (V(0), V(5), V(7), Nil), body });
    let body: Vec<Lit> = vec![
        Lit::Has(CRIT_ORIGIN, V(0), V(1), V(2), Nil),
        Lit::Has(STORE_INDEX_VAR, V(1), V(3), Any, Any),
        Lit::Let(V(4), Op::Zero, Nil, Nil, Nil, Nil),
        Lit::Let(V(5), Op::SlotRoot, V(2), V(4), Nil, Nil),
        Lit::Let(V(6), Op::Bare, V(5), Nil, Nil, Nil),
        Lit::Let(V(7), Op::VarRoot, V(3), Nil, Nil, Nil),
        Lit::Let(V(8), Op::Bare, V(7), Nil, Nil, Nil),
    ];
    r.push(Rule { head: EDGE, cols: (V(0), V(6), V(8), Nil), body });
    let body: Vec<Lit> = vec![
        Lit::Has(CRIT_ORIGIN, V(0), V(1), V(2), Nil),
        Lit::Has(STORE_INDEX_VAR, V(1), Any, V(3), Any),
        Lit::Let(V(4), Op::One, Nil, Nil, Nil, Nil),
        Lit::Let(V(5), Op::SlotRoot, V(2), V(4), Nil, Nil),
        Lit::Let(V(6), Op::Bare, V(5), Nil, Nil, Nil),
        Lit::Let(V(7), Op::VarRoot, V(3), Nil, Nil, Nil),
        Lit::Let(V(8), Op::Bare, V(7), Nil, Nil, Nil),
    ];
    r.push(Rule { head: EDGE, cols: (V(0), V(6), V(8), Nil), body });
    let body: Vec<Lit> = vec![
        Lit::Has(CRIT_ORIGIN, V(0), V(1), V(2), Nil),
        Lit::Has(STORE_INDEX_VAR, V(1), Any, Any, V(3)),
        Lit::Let(V(4), Op::Two, Nil, Nil, Nil, Nil),
        Lit::Let(V(5), Op::SlotRoot, V(2), V(4), Nil, Nil),
        Lit::Let(V(6), Op::Bare, V(5), Nil, Nil, Nil),
        Lit::Let(V(7), Op::VarRoot, V(3), Nil, Nil, Nil),
        Lit::Let(V(8), Op::Bare, V(7), Nil, Nil, Nil),
    ];
    r.push(Rule { head: EDGE, cols: (V(0), V(6), V(8), Nil), body });
    let body: Vec<Lit> = vec![
        Lit::Has(PENDING, V(0), V(1), Nil, Nil),
        Lit::Has(BLOCKED, V(0), V(1), Nil, Nil),
        Lit::Has(EFF_DIRECT, V(2), V(0), Nil, Nil),
        Lit::Has(IN_PROC, V(2), V(3), Any, Nil),
        Lit::Has(K_LIMIT, V(4), Nil, Nil, Nil),
        Lit::Let(Nil, Op::Below, V(1), V(4), Nil, Nil),
        Lit::Let(V(5), Op::Push, V(1), V(2), Nil, Nil),
    ];
    r.push(Rule { head: PENDING, cols: (V(3), V(5), Nil, Nil), body });
    let body: Vec<Lit> = vec![
        Lit::Has(PENDING, V(0), V(1), Nil, Nil),
        Lit::Has(EFF_DIRECT, V(2), V(0), Nil, Nil),
        Lit::Has(IN_PROC, V(2), Any, Any, Nil),
        Lit::Has(K_LIMIT, V(3), Nil, Nil, Nil),
        Lit::Let(Nil, Op::Below, V(1), V(3), Nil, Nil),
    ];
    r.push(Rule { head: CAN_PROPAGATE, cols: (V(0), V(1), Nil, Nil), body });
    let body: Vec<Lit> = vec![
        Lit::Has(PENDING, V(0), V(1), Nil, Nil),
        Lit::Has(UNCALLED, V(0), Nil, Nil, Nil),
    ];
    r.push(Rule { head: STUCK, cols: (V(0), V(1), Nil, Nil), body });
    let body: Vec<Lit> = vec![
        Lit::Has(PENDING, V(0), V(1), Nil, Nil),
        Lit::Has(ENTRY, V(0), Nil, Nil, Nil),
    ];
    r.push(Rule { head: STUCK, cols: (V(0), V(1), Nil, Nil), body });
    let body: Vec<Lit> = vec![
        Lit::Has(PENDING, V(0), V(1), Nil, Nil),
        Lit::Has(K_LIMIT, V(2), Nil, Nil, Nil),
        Lit::Let(Nil, Op::AtLimit, V(1), V(2), Nil, Nil),
    ];
    r.push(Rule { head: STUCK, cols: (V(0), V(1), Nil, Nil), body });
    let body: Vec<Lit> = vec![
        Lit::Has(PENDING, Any, V(0), Nil, Nil),
        Lit::Let(V(1), Op::StmtOf, V(0), Nil, Nil, Nil),
        Lit::Has(ACTUAL_ARG, V(1), V(2), Any, Nil),
    ];
    r.push(Rule { head: CRIT_OPERAND, cols: (V(0), V(2), Nil, Nil), body });
    let body: Vec<Lit> = vec![
        Lit::Has(INDEX_CRIT, V(0), Nil, Nil, Nil),
        Lit::Let(V(1), Op::Zero, Nil, Nil, Nil, Nil),
    ];
    r.push(Rule { head: CRIT_OPERAND, cols: (V(0), V(1), Nil, Nil), body });
    let body: Vec<Lit> = vec![
        Lit::Has(INDEX_CRIT, V(0), Nil, Nil, Nil),
        Lit::Let(V(1), Op::One, Nil, Nil, Nil, Nil),
    ];
    r.push(Rule { head: CRIT_OPERAND, cols: (V(0), V(1), Nil, Nil), body });
    let body: Vec<Lit> = vec![
        Lit::Has(STORE_CRIT, V(0), Nil, Nil, Nil),
        Lit::Let(V(1), Op::Two, Nil, Nil, Nil, Nil),
    ];
    r.push(Rule { head: CRIT_OPERAND, cols: (V(0), V(1), Nil, Nil), body });
    let body: Vec<Lit> = vec![
        Lit::Has(PENDING, Any, V(0), Nil, Nil),
        Lit::Let(V(1), Op::StmtOf, V(0), Nil, Nil, Nil),
        Lit::Has(VIRTUAL_CALL, V(1), Any, Any, Nil),
    ];
    r.push(Rule { head: CALL_CRIT, cols: (V(0), Nil, Nil, Nil), body });
    let body: Vec<Lit> = vec![
        Lit::Has(PENDING, Any, V(0), Nil, Nil),
        Lit::Let(V(1), Op::StmtOf, V(0), Nil, Nil, Nil),
        Lit::Has(LOAD_INDEX_VAR, V(1), Any, Any, Any),
    ];
    r.push(Rule { head: LOAD_CRIT, cols: (V(0), Nil, Nil, Nil), body });
    let body: Vec<Lit> = vec![
        Lit::Has(PENDING, Any, V(0), Nil, Nil),
        Lit::Let(V(1), Op::StmtOf, V(0), Nil, Nil, Nil),
        Lit::Has(STORE_INDEX_VAR, V(1), Any, Any, Any),
    ];
    r.push(Rule { head: STORE_CRIT, cols: (V(0), Nil, Nil, Nil), body });
    let body: Vec<Lit> = vec![
        Lit::Has(LOAD_CRIT, V(0), Nil, Nil, Nil),
    ];
    r.push(Rule { head: INDEX_CRIT, cols: (V(0), Nil, Nil, Nil), body });
    let body: Vec<Lit> = vec![
        Lit::Has(STORE_CRIT, V(0), Nil, Nil, Nil),
    ];
    r.push(Rule { head: INDEX_CRIT, cols: (V(0), Nil, Nil, Nil), body });
    let body: Vec<Lit> = vec![
        Lit::Has(CALL_CRIT, V(0), Nil, Nil, Nil),
        Lit::Let(V(1), Op::Zero, Nil, Nil, Nil, Nil),
    ];
    r.push(Rule { head: DECISIVE_SLOT, cols: (V(0), V(1), Nil, Nil), body });
    let body: Vec<Lit> = vec![
        Lit::Has(INDEX_CRIT, V(0), Nil, Nil, Nil),
        Lit::Let(V(1), Op::One, Nil, Nil, Nil, Nil),
    ];
    r.push(Rule { head: DECISIVE_SLOT, cols: (V(0), V(1), Nil, Nil), body });
    let body: Vec<Lit> = vec![
        Lit::Has(PENDING, Any, V(0), Nil, Nil),
        Lit::Let(V(1), Op::StmtOf, V(0), Nil, Nil, Nil),
        Lit::Has(VIRTUAL_CALL, V(1), Any, V(2), Nil),
    ];
    r.push(Rule { head: CRIT_SIG, cols: (V(0), V(2), Nil, Nil), body });
    proof {
        let s = placeholders_clauses();
        assert(r@[0]@ =~= s[0]);
        assert(r@[1]@ =~= s[1]);
        assert(r@[2]@ =~= s[2]);
        assert(r@[3]@ =~= s[3]);
        assert(r@[4]@ =~= s[4]);
        assert(r@[5]@ =~= s[5]);
        assert(r@[6]@ =~= s[6]);
        assert(r@[7]@ =~= s[7]);
        assert(r@[8]@ =~= s[8]);
        assert(r@[9]@ =~= s[9]);
        assert(r@[10]@ =~= s[10]);
        assert(r@[11]@ =~= s[11]);
        assert(r@[12]@ =~= s[12]);
        assert(r@[13]@ =~= s[13]);
        assert(r@[14]@ =~= s[14]);
        assert(r@[15]@ =~= s[15]);
        assert(r@[16]@ =~= s[16]);
        assert(r@[17]@ =~= s[17]);
        assert(r@[18]@ =~= s[18]);
        assert(r@[19]@ =~= s[19]);
        assert(r@[20]@ =~= s[20]);
        assert(r@[21]@ =~= s[21]);
        assert(r@[22]@ =~= s[22]);
        assert(r@[23]@ =~= s[23]);
        assert(r@[24]@ =~= s[24]);
        assert(r@[25]@ =~= s[25]);
        assert(clauses(r@) =~= s);
    }
    r
}

// ---------------------------------------------------------------------------
// Rules: roots
// ---------------------------------------------------------------------------

/// The fixpoint: the roots a summary publishes, and where a call puts them.
pub open spec fn roots_clauses() -> Seq<Clause> {
    seq![
        // free_root p r <- formal p i _, r = ParamRoot p i
        Clause {
            head: FREE_ROOT,
            cols: (V(0), V(2), Nil, Nil),
            body: seq![
                Lit::Has(FORMAL, V(0), V(1), Any, Nil),
                Lit::Let(V(2), Op::ParamRoot, V(0), V(1), Nil, Nil),
            ],
        },
        // free_root p r <- known_proc p, r = RetRoot p
        Clause {
            head: FREE_ROOT,
            cols: (V(0), V(1), Nil, Nil),
            body: seq![
                Lit::Has(KNOWN_PROC, V(0), Nil, Nil, Nil),
                Lit::Let(V(1), Op::RetRoot, V(0), Nil, Nil, Nil),
            ],
        },
        // free_root p r <- can_propagate p id, crit_operand id i, r = SlotRoot id i
        Clause {
            head: FREE_ROOT,
            cols: (V(0), V(3), Nil, Nil),
            body: seq![
                Lit::Has(CAN_PROPAGATE, V(0), V(1), Nil, Nil),
                Lit::Has(CRIT_OPERAND, V(1), V(2), Nil, Nil),
                Lit::Let(V(3), Op::SlotRoot, V(1), V(2), Nil, Nil),
            ],
        },
        // free_root p r <- can_propagate p id, r = ResRoot id
        Clause {
            head: FREE_ROOT,
            cols: (V(0), V(2), Nil, Nil),
            body: seq![
                Lit::Has(CAN_PROPAGATE, V(0), V(1), Nil, Nil),
                Lit::Let(V(2), Op::ResRoot, V(1), Nil, Nil, Nil),
            ],
        },
        // pub_root p r <- formal p i _, r = ParamRoot p i
        Clause {
            head: PUB_ROOT,
            cols: (V(0), V(2), Nil, Nil),
            body: seq![
                Lit::Has(FORMAL, V(0), V(1), Any, Nil),
                Lit::Let(V(2), Op::ParamRoot, V(0), V(1), Nil, Nil),
            ],
        },
        // pub_root p r <- known_proc p, r = RetRoot p
        Clause {
            head: PUB_ROOT,
            cols: (V(0), V(1), Nil, Nil),
            body: seq![
                Lit::Has(KNOWN_PROC, V(0), Nil, Nil, Nil),
                Lit::Let(V(1), Op::RetRoot, V(0), Nil, Nil, Nil),
            ],
        },
        // pub_root p r <- pending p id, r = ResRoot id
        Clause {
            head: PUB_ROOT,
            cols: (V(0), V(2), Nil, Nil),
            body: seq![
                Lit::Has(PENDING, V(0), V(1), Nil, Nil),
                Lit::Let(V(2), Op::ResRoot, V(1), Nil, Nil, Nil),
            ],
        },
        // pub_root p r <- pending p id, crit_operand id i, r = SlotRoot id i
        Clause {
            head: PUB_ROOT,
            cols: (V(0), V(3), Nil, Nil),
            body: seq![
                Lit::Has(PENDING, V(0), V(1), Nil, Nil),
                Lit::Has(CRIT_OPERAND, V(1), V(2), Nil, Nil),
                Lit::Let(V(3), Op::SlotRoot, V(1), V(2), Nil, Nil),
            ],
        },
        // pub_points p a v <- points p a v, ? Concrete v, r = RootOf a, pub_root p r
        Clause {
            head: PUB_POINTS,
            cols: (V(0), V(1), V(2), Nil),
            body: seq![
                Lit::Has(POINTS, V(0), V(1), V(2), Nil),
                Lit::Let(Nil, Op::Concrete, V(2), Nil, Nil, Nil),
                Lit::Let(V(3), Op::RootOf, V(1), Nil, Nil, Nil),
                Lit::Has(PUB_ROOT, V(0), V(3), Nil, Nil),
            ],
        },
        // root_map s x y <- eff_direct s p, actual_arg s i a, x = ParamRoot p i, y = VarRoot a
        Clause {
            head: ROOT_MAP,
            cols: (V(0), V(4), V(5), Nil),
            body: seq![
                Lit::Has(EFF_DIRECT, V(0), V(1), Nil, Nil),
                Lit::Has(ACTUAL_ARG, V(0), V(2), V(3), Nil),
                Lit::Let(V(4), Op::ParamRoot, V(1), V(2), Nil, Nil),
                Lit::Let(V(5), Op::VarRoot, V(3), Nil, Nil, Nil),
            ],
        },
        // root_map s x y <- eff_direct s p, bind_ret s r, x = RetRoot p, y = VarRoot r
        Clause {
            head: ROOT_MAP,
            cols: (V(0), V(3), V(4), Nil),
            body: seq![
                Lit::Has(EFF_DIRECT, V(0), V(1), Nil, Nil),
                Lit::Has(BIND_RET, V(0), V(2), Nil, Nil),
                Lit::Let(V(3), Op::RetRoot, V(1), Nil, Nil, Nil),
                Lit::Let(V(4), Op::VarRoot, V(2), Nil, Nil, Nil),
            ],
        },
        // root_map s x y <- eff_direct s p, pending p id, blocked p id, crit_operand id i,
        //     k_limit k, ? Below id k, x = SlotRoot id i, on = Push id s, y = SlotRoot on i
        Clause {
            head: ROOT_MAP,
            cols: (V(0), V(5), V(7), Nil),
            body: seq![
                Lit::Has(EFF_DIRECT, V(0), V(1), Nil, Nil),
                Lit::Has(PENDING, V(1), V(2), Nil, Nil),
                Lit::Has(BLOCKED, V(1), V(2), Nil, Nil),
                Lit::Has(CRIT_OPERAND, V(2), V(3), Nil, Nil),
                Lit::Has(K_LIMIT, V(4), Nil, Nil, Nil),
                Lit::Let(Nil, Op::Below, V(2), V(4), Nil, Nil),
                Lit::Let(V(5), Op::SlotRoot, V(2), V(3), Nil, Nil),
                Lit::Let(V(6), Op::Push, V(2), V(0), Nil, Nil),
                Lit::Let(V(7), Op::SlotRoot, V(6), V(3), Nil, Nil),
            ],
        },
        // root_map s x y <- eff_direct s p, pending p id, blocked p id, k_limit k, ? Below id
        //     k, x = ResRoot id, on = Push id s, y = ResRoot on
        Clause {
            head: ROOT_MAP,
            cols: (V(0), V(4), V(6), Nil),
            body: seq![
                Lit::Has(EFF_DIRECT, V(0), V(1), Nil, Nil),
                Lit::Has(PENDING, V(1), V(2), Nil, Nil),
                Lit::Has(BLOCKED, V(1), V(2), Nil, Nil),
                Lit::Has(K_LIMIT, V(3), Nil, Nil, Nil),
                Lit::Let(Nil, Op::Below, V(2), V(3), Nil, Nil),
                Lit::Let(V(4), Op::ResRoot, V(2), Nil, Nil, Nil),
                Lit::Let(V(5), Op::Push, V(2), V(0), Nil, Nil),
                Lit::Let(V(6), Op::ResRoot, V(5), Nil, Nil, Nil),
            ],
        },
        // edge q x y <- eff_direct s p, in_proc s q _, points p a v, b = OfPath v, ra = RootOf
        //     a, root_map s ra ta, rb = RootOf b, root_map s rb tb, x = Rebase a ta, y =
        //     Rebase b tb
        Clause {
            head: EDGE,
            cols: (V(2), V(10), V(11), Nil),
            body: seq![
                Lit::Has(EFF_DIRECT, V(0), V(1), Nil, Nil),
                Lit::Has(IN_PROC, V(0), V(2), Any, Nil),
                Lit::Has(POINTS, V(1), V(3), V(4), Nil),
                Lit::Let(V(5), Op::OfPath, V(4), Nil, Nil, Nil),
                Lit::Let(V(6), Op::RootOf, V(3), Nil, Nil, Nil),
                Lit::Has(ROOT_MAP, V(0), V(6), V(7), Nil),
                Lit::Let(V(8), Op::RootOf, V(5), Nil, Nil, Nil),
                Lit::Has(ROOT_MAP, V(0), V(8), V(9), Nil),
                Lit::Let(V(10), Op::Rebase, V(3), V(7), Nil, Nil),
                Lit::Let(V(11), Op::Rebase, V(5), V(9), Nil, Nil),
            ],
        },
        // points q x v <- eff_direct s p, in_proc s q _, pub_points p a v, ra = RootOf a,
        //     root_map s ra ta, x = Rebase a ta
        Clause {
            head: POINTS,
            cols: (V(2), V(7), V(4), Nil),
            body: seq![
                Lit::Has(EFF_DIRECT, V(0), V(1), Nil, Nil),
                Lit::Has(IN_PROC, V(0), V(2), Any, Nil),
                Lit::Has(PUB_POINTS, V(1), V(3), V(4), Nil),
                Lit::Let(V(5), Op::RootOf, V(3), Nil, Nil, Nil),
                Lit::Has(ROOT_MAP, V(0), V(5), V(6), Nil),
                Lit::Let(V(7), Op::Rebase, V(3), V(6), Nil, Nil),
            ],
        },
    ]
}

/// The fixpoint: the roots a summary publishes, and where a call puts them.
fn roots_rules() -> (r: Vec<Rule>)
    ensures
        clauses(r@) == roots_clauses(),
{
    let mut r: Vec<Rule> = Vec::new();
    let body: Vec<Lit> = vec![
        Lit::Has(FORMAL, V(0), V(1), Any, Nil),
        Lit::Let(V(2), Op::ParamRoot, V(0), V(1), Nil, Nil),
    ];
    r.push(Rule { head: FREE_ROOT, cols: (V(0), V(2), Nil, Nil), body });
    let body: Vec<Lit> = vec![
        Lit::Has(KNOWN_PROC, V(0), Nil, Nil, Nil),
        Lit::Let(V(1), Op::RetRoot, V(0), Nil, Nil, Nil),
    ];
    r.push(Rule { head: FREE_ROOT, cols: (V(0), V(1), Nil, Nil), body });
    let body: Vec<Lit> = vec![
        Lit::Has(CAN_PROPAGATE, V(0), V(1), Nil, Nil),
        Lit::Has(CRIT_OPERAND, V(1), V(2), Nil, Nil),
        Lit::Let(V(3), Op::SlotRoot, V(1), V(2), Nil, Nil),
    ];
    r.push(Rule { head: FREE_ROOT, cols: (V(0), V(3), Nil, Nil), body });
    let body: Vec<Lit> = vec![
        Lit::Has(CAN_PROPAGATE, V(0), V(1), Nil, Nil),
        Lit::Let(V(2), Op::ResRoot, V(1), Nil, Nil, Nil),
    ];
    r.push(Rule { head: FREE_ROOT, cols: (V(0), V(2), Nil, Nil), body });
    let body: Vec<Lit> = vec![
        Lit::Has(FORMAL, V(0), V(1), Any, Nil),
        Lit::Let(V(2), Op::ParamRoot, V(0), V(1), Nil, Nil),
    ];
    r.push(Rule { head: PUB_ROOT, cols: (V(0), V(2), Nil, Nil), body });
    let body: Vec<Lit> = vec![
        Lit::Has(KNOWN_PROC, V(0), Nil, Nil, Nil),
        Lit::Let(V(1), Op::RetRoot, V(0), Nil, Nil, Nil),
    ];
    r.push(Rule { head: PUB_ROOT, cols: (V(0), V(1), Nil, Nil), body });
    let body: Vec<Lit> = vec![
        Lit::Has(PENDING, V(0), V(1), Nil, Nil),
        Lit::Let(V(2), Op::ResRoot, V(1), Nil, Nil, Nil),
    ];
    r.push(Rule { head: PUB_ROOT, cols: (V(0), V(2), Nil, Nil), body });
    let body: Vec<Lit> = vec![
        Lit::Has(PENDING, V(0), V(1), Nil, Nil),
        Lit::Has(CRIT_OPERAND, V(1), V(2), Nil, Nil),
        Lit::Let(V(3), Op::SlotRoot, V(1), V(2), Nil, Nil),
    ];
    r.push(Rule { head: PUB_ROOT, cols: (V(0), V(3), Nil, Nil), body });
    let body: Vec<Lit> = vec![
        Lit::Has(POINTS, V(0), V(1), V(2), Nil),
        Lit::Let(Nil, Op::Concrete, V(2), Nil, Nil, Nil),
        Lit::Let(V(3), Op::RootOf, V(1), Nil, Nil, Nil),
        Lit::Has(PUB_ROOT, V(0), V(3), Nil, Nil),
    ];
    r.push(Rule { head: PUB_POINTS, cols: (V(0), V(1), V(2), Nil), body });
    let body: Vec<Lit> = vec![
        Lit::Has(EFF_DIRECT, V(0), V(1), Nil, Nil),
        Lit::Has(ACTUAL_ARG, V(0), V(2), V(3), Nil),
        Lit::Let(V(4), Op::ParamRoot, V(1), V(2), Nil, Nil),
        Lit::Let(V(5), Op::VarRoot, V(3), Nil, Nil, Nil),
    ];
    r.push(Rule { head: ROOT_MAP, cols: (V(0), V(4), V(5), Nil), body });
    let body: Vec<Lit> = vec![
        Lit::Has(EFF_DIRECT, V(0), V(1), Nil, Nil),
        Lit::Has(BIND_RET, V(0), V(2), Nil, Nil),
        Lit::Let(V(3), Op::RetRoot, V(1), Nil, Nil, Nil),
        Lit::Let(V(4), Op::VarRoot, V(2), Nil, Nil, Nil),
    ];
    r.push(Rule { head: ROOT_MAP, cols: (V(0), V(3), V(4), Nil), body });
    let body: Vec<Lit> = vec![
        Lit::Has(EFF_DIRECT, V(0), V(1), Nil, Nil),
        Lit::Has(PENDING, V(1), V(2), Nil, Nil),
        Lit::Has(BLOCKED, V(1), V(2), Nil, Nil),
        Lit::Has(CRIT_OPERAND, V(2), V(3), Nil, Nil),
        Lit::Has(K_LIMIT, V(4), Nil, Nil, Nil),
        Lit::Let(Nil, Op::Below, V(2), V(4), Nil, Nil),
        Lit::Let(V(5), Op::SlotRoot, V(2), V(3), Nil, Nil),
        Lit::Let(V(6), Op::Push, V(2), V(0), Nil, Nil),
        Lit::Let(V(7), Op::SlotRoot, V(6), V(3), Nil, Nil),
    ];
    r.push(Rule { head: ROOT_MAP, cols: (V(0), V(5), V(7), Nil), body });
    let body: Vec<Lit> = vec![
        Lit::Has(EFF_DIRECT, V(0), V(1), Nil, Nil),
        Lit::Has(PENDING, V(1), V(2), Nil, Nil),
        Lit::Has(BLOCKED, V(1), V(2), Nil, Nil),
        Lit::Has(K_LIMIT, V(3), Nil, Nil, Nil),
        Lit::Let(Nil, Op::Below, V(2), V(3), Nil, Nil),
        Lit::Let(V(4), Op::ResRoot, V(2), Nil, Nil, Nil),
        Lit::Let(V(5), Op::Push, V(2), V(0), Nil, Nil),
        Lit::Let(V(6), Op::ResRoot, V(5), Nil, Nil, Nil),
    ];
    r.push(Rule { head: ROOT_MAP, cols: (V(0), V(4), V(6), Nil), body });
    let body: Vec<Lit> = vec![
        Lit::Has(EFF_DIRECT, V(0), V(1), Nil, Nil),
        Lit::Has(IN_PROC, V(0), V(2), Any, Nil),
        Lit::Has(POINTS, V(1), V(3), V(4), Nil),
        Lit::Let(V(5), Op::OfPath, V(4), Nil, Nil, Nil),
        Lit::Let(V(6), Op::RootOf, V(3), Nil, Nil, Nil),
        Lit::Has(ROOT_MAP, V(0), V(6), V(7), Nil),
        Lit::Let(V(8), Op::RootOf, V(5), Nil, Nil, Nil),
        Lit::Has(ROOT_MAP, V(0), V(8), V(9), Nil),
        Lit::Let(V(10), Op::Rebase, V(3), V(7), Nil, Nil),
        Lit::Let(V(11), Op::Rebase, V(5), V(9), Nil, Nil),
    ];
    r.push(Rule { head: EDGE, cols: (V(2), V(10), V(11), Nil), body });
    let body: Vec<Lit> = vec![
        Lit::Has(EFF_DIRECT, V(0), V(1), Nil, Nil),
        Lit::Has(IN_PROC, V(0), V(2), Any, Nil),
        Lit::Has(PUB_POINTS, V(1), V(3), V(4), Nil),
        Lit::Let(V(5), Op::RootOf, V(3), Nil, Nil, Nil),
        Lit::Has(ROOT_MAP, V(0), V(5), V(6), Nil),
        Lit::Let(V(7), Op::Rebase, V(3), V(6), Nil, Nil),
    ];
    r.push(Rule { head: POINTS, cols: (V(2), V(7), V(4), Nil), body });
    proof {
        let s = roots_clauses();
        assert(r@[0]@ =~= s[0]);
        assert(r@[1]@ =~= s[1]);
        assert(r@[2]@ =~= s[2]);
        assert(r@[3]@ =~= s[3]);
        assert(r@[4]@ =~= s[4]);
        assert(r@[5]@ =~= s[5]);
        assert(r@[6]@ =~= s[6]);
        assert(r@[7]@ =~= s[7]);
        assert(r@[8]@ =~= s[8]);
        assert(r@[9]@ =~= s[9]);
        assert(r@[10]@ =~= s[10]);
        assert(r@[11]@ =~= s[11]);
        assert(r@[12]@ =~= s[12]);
        assert(r@[13]@ =~= s[13]);
        assert(r@[14]@ =~= s[14]);
        assert(clauses(r@) =~= s);
    }
    r
}

// ---------------------------------------------------------------------------
// Rules: decisions
// ---------------------------------------------------------------------------

/// The fixpoint: what is decided, and what follows from it.
pub open spec fn decisions_clauses() -> Seq<Clause> {
    seq![
        // blocked p id <- pending p id, decisive_slot id i, rd = SlotRoot id i, d = Bare rd,
        //     points p d v, w = OfPath v, r = RootOf w, free_root p r
        Clause {
            head: BLOCKED,
            cols: (V(0), V(1), Nil, Nil),
            body: seq![
                Lit::Has(PENDING, V(0), V(1), Nil, Nil),
                Lit::Has(DECISIVE_SLOT, V(1), V(2), Nil, Nil),
                Lit::Let(V(3), Op::SlotRoot, V(1), V(2), Nil, Nil),
                Lit::Let(V(4), Op::Bare, V(3), Nil, Nil, Nil),
                Lit::Has(POINTS, V(0), V(4), V(5), Nil),
                Lit::Let(V(6), Op::OfPath, V(5), Nil, Nil, Nil),
                Lit::Let(V(7), Op::RootOf, V(6), Nil, Nil, Nil),
                Lit::Has(FREE_ROOT, V(0), V(7), Nil, Nil),
            ],
        },
        // top p id <- blocked p id, stuck p id
        Clause {
            head: TOP,
            cols: (V(0), V(1), Nil, Nil),
            body: seq![
                Lit::Has(BLOCKED, V(0), V(1), Nil, Nil),
                Lit::Has(STUCK, V(0), V(1), Nil, Nil),
            ],
        },
        // resolve p id c <- pending p id, ! will_propagate p id, call_crit id, n = Zero, rd =
        //     SlotRoot id n, d = Bare rd, points p d v, l = OfAlloc v, alloc_type l t,
        //     crit_sig id sig, lookup t sig c
        Clause {
            head: RESOLVE,
            cols: (V(0), V(1), V(9), Nil),
            body: seq![
                Lit::Has(PENDING, V(0), V(1), Nil, Nil),
                Lit::Lacks(WILL_PROPAGATE, V(0), V(1), Nil, Nil),
                Lit::Has(CALL_CRIT, V(1), Nil, Nil, Nil),
                Lit::Let(V(2), Op::Zero, Nil, Nil, Nil, Nil),
                Lit::Let(V(3), Op::SlotRoot, V(1), V(2), Nil, Nil),
                Lit::Let(V(4), Op::Bare, V(3), Nil, Nil, Nil),
                Lit::Has(POINTS, V(0), V(4), V(5), Nil),
                Lit::Let(V(6), Op::OfAlloc, V(5), Nil, Nil, Nil),
                Lit::Has(ALLOC_TYPE, V(6), V(7), Nil, Nil),
                Lit::Has(CRIT_SIG, V(1), V(8), Nil, Nil),
                Lit::Has(LOOKUP, V(7), V(8), V(9), Nil),
            ],
        },
        // resolve p id c <- top p id, call_crit id, crit_sig id sig, sig_target sig c
        Clause {
            head: RESOLVE,
            cols: (V(0), V(1), V(3), Nil),
            body: seq![
                Lit::Has(TOP, V(0), V(1), Nil, Nil),
                Lit::Has(CALL_CRIT, V(1), Nil, Nil, Nil),
                Lit::Has(CRIT_SIG, V(1), V(2), Nil, Nil),
                Lit::Has(SIG_TARGET, V(2), V(3), Nil, Nil),
            ],
        },
        // index_undecidable p id <- pending p id, ! will_propagate p id, index_crit id, n =
        //     One, rd = SlotRoot id n, d = Bare rd, points p d v, l = OfAlloc v
        Clause {
            head: INDEX_UNDECIDABLE,
            cols: (V(0), V(1), Nil, Nil),
            body: seq![
                Lit::Has(PENDING, V(0), V(1), Nil, Nil),
                Lit::Lacks(WILL_PROPAGATE, V(0), V(1), Nil, Nil),
                Lit::Has(INDEX_CRIT, V(1), Nil, Nil, Nil),
                Lit::Let(V(2), Op::One, Nil, Nil, Nil, Nil),
                Lit::Let(V(3), Op::SlotRoot, V(1), V(2), Nil, Nil),
                Lit::Let(V(4), Op::Bare, V(3), Nil, Nil, Nil),
                Lit::Has(POINTS, V(0), V(4), V(5), Nil),
                Lit::Let(V(6), Op::OfAlloc, V(5), Nil, Nil, Nil),
            ],
        },
        // index_acc p id a <- pending p id, ! will_propagate p id, index_crit id, n = One, rd
        //     = SlotRoot id n, d = Bare rd, points p d v, c = OfConst v, a = ByIndex c
        Clause {
            head: INDEX_ACC,
            cols: (V(0), V(1), V(7), Nil),
            body: seq![
                Lit::Has(PENDING, V(0), V(1), Nil, Nil),
                Lit::Lacks(WILL_PROPAGATE, V(0), V(1), Nil, Nil),
                Lit::Has(INDEX_CRIT, V(1), Nil, Nil, Nil),
                Lit::Let(V(2), Op::One, Nil, Nil, Nil, Nil),
                Lit::Let(V(3), Op::SlotRoot, V(1), V(2), Nil, Nil),
                Lit::Let(V(4), Op::Bare, V(3), Nil, Nil, Nil),
                Lit::Has(POINTS, V(0), V(4), V(5), Nil),
                Lit::Let(V(6), Op::OfConst, V(5), Nil, Nil, Nil),
                Lit::Let(V(7), Op::ByIndex, V(6), Nil, Nil, Nil),
            ],
        },
        // index_acc p id a <- index_undecidable p id, a = ByUnknown
        Clause {
            head: INDEX_ACC,
            cols: (V(0), V(1), V(2), Nil),
            body: seq![
                Lit::Has(INDEX_UNDECIDABLE, V(0), V(1), Nil, Nil),
                Lit::Let(V(2), Op::ByUnknown, Nil, Nil, Nil, Nil),
            ],
        },
        // index_acc p id a <- top p id, index_crit id, a = ByUnknown
        Clause {
            head: INDEX_ACC,
            cols: (V(0), V(1), V(2), Nil),
            body: seq![
                Lit::Has(TOP, V(0), V(1), Nil, Nil),
                Lit::Has(INDEX_CRIT, V(1), Nil, Nil, Nil),
                Lit::Let(V(2), Op::ByUnknown, Nil, Nil, Nil, Nil),
            ],
        },
        // pending p on <- resolve p id c, pending c inner, k_limit k, ? NestsWithin inner id
        //     k, on = Nest inner id
        Clause {
            head: PENDING,
            cols: (V(0), V(5), Nil, Nil),
            body: seq![
                Lit::Has(RESOLVE, V(0), V(1), V(2), Nil),
                Lit::Has(PENDING, V(2), V(3), Nil, Nil),
                Lit::Has(K_LIMIT, V(4), Nil, Nil, Nil),
                Lit::Let(Nil, Op::NestsWithin, V(3), V(1), V(4), Nil),
                Lit::Let(V(5), Op::Nest, V(3), V(1), Nil, Nil),
            ],
        },
        // edge p x y <- resolve p id c, points c a v, b = OfPath v, k_limit k, ra = RootOf a,
        //     ta = CritRoot c id ra k, rb = RootOf b, tb = CritRoot c id rb k, x = Rebase a
        //     ta, y = Rebase b tb
        Clause {
            head: EDGE,
            cols: (V(0), V(11), V(12), Nil),
            body: seq![
                Lit::Has(RESOLVE, V(0), V(1), V(2), Nil),
                Lit::Has(POINTS, V(2), V(3), V(4), Nil),
                Lit::Let(V(5), Op::OfPath, V(4), Nil, Nil, Nil),
                Lit::Has(K_LIMIT, V(6), Nil, Nil, Nil),
                Lit::Let(V(7), Op::RootOf, V(3), Nil, Nil, Nil),
                Lit::Let(V(8), Op::CritRoot, V(2), V(1), V(7), V(6)),
                Lit::Let(V(9), Op::RootOf, V(5), Nil, Nil, Nil),
                Lit::Let(V(10), Op::CritRoot, V(2), V(1), V(9), V(6)),
                Lit::Let(V(11), Op::Rebase, V(3), V(8), Nil, Nil),
                Lit::Let(V(12), Op::Rebase, V(5), V(10), Nil, Nil),
            ],
        },
        // points p x v <- resolve p id c, pub_points c a v, k_limit k, ra = RootOf a, ta =
        //     CritRoot c id ra k, x = Rebase a ta
        Clause {
            head: POINTS,
            cols: (V(0), V(8), V(4), Nil),
            body: seq![
                Lit::Has(RESOLVE, V(0), V(1), V(2), Nil),
                Lit::Has(PUB_POINTS, V(2), V(3), V(4), Nil),
                Lit::Has(K_LIMIT, V(5), Nil, Nil, Nil),
                Lit::Let(V(6), Op::RootOf, V(3), Nil, Nil, Nil),
                Lit::Let(V(7), Op::CritRoot, V(2), V(1), V(6), V(5)),
                Lit::Let(V(8), Op::Rebase, V(3), V(7), Nil, Nil),
            ],
        },
        // edge p x y <- index_acc p id a, load_crit id, n = Zero, rs = SlotRoot id n, slot =
        //     Bare rs, edge p slot w, y = StepTo w a, t = StepsOf y, paths t, rx = ResRoot id,
        //     x = Bare rx
        Clause {
            head: EDGE,
            cols: (V(0), V(10), V(7), Nil),
            body: seq![
                Lit::Has(INDEX_ACC, V(0), V(1), V(2), Nil),
                Lit::Has(LOAD_CRIT, V(1), Nil, Nil, Nil),
                Lit::Let(V(3), Op::Zero, Nil, Nil, Nil, Nil),
                Lit::Let(V(4), Op::SlotRoot, V(1), V(3), Nil, Nil),
                Lit::Let(V(5), Op::Bare, V(4), Nil, Nil, Nil),
                Lit::Has(EDGE, V(0), V(5), V(6), Nil),
                Lit::Let(V(7), Op::StepTo, V(6), V(2), Nil, Nil),
                Lit::Let(V(8), Op::StepsOf, V(7), Nil, Nil, Nil),
                Lit::Has(PATHS, V(8), Nil, Nil, Nil),
                Lit::Let(V(9), Op::ResRoot, V(1), Nil, Nil, Nil),
                Lit::Let(V(10), Op::Bare, V(9), Nil, Nil, Nil),
            ],
        },
        // edge p x y <- index_acc p id a, store_crit id, n = Zero, rs = SlotRoot id n, slot =
        //     Bare rs, edge p slot w, x = StepTo w a, t = StepsOf x, paths t, m = Two, ry =
        //     SlotRoot id m, y = Bare ry
        Clause {
            head: EDGE,
            cols: (V(0), V(7), V(11), Nil),
            body: seq![
                Lit::Has(INDEX_ACC, V(0), V(1), V(2), Nil),
                Lit::Has(STORE_CRIT, V(1), Nil, Nil, Nil),
                Lit::Let(V(3), Op::Zero, Nil, Nil, Nil, Nil),
                Lit::Let(V(4), Op::SlotRoot, V(1), V(3), Nil, Nil),
                Lit::Let(V(5), Op::Bare, V(4), Nil, Nil, Nil),
                Lit::Has(EDGE, V(0), V(5), V(6), Nil),
                Lit::Let(V(7), Op::StepTo, V(6), V(2), Nil, Nil),
                Lit::Let(V(8), Op::StepsOf, V(7), Nil, Nil, Nil),
                Lit::Has(PATHS, V(8), Nil, Nil, Nil),
                Lit::Let(V(9), Op::Two, Nil, Nil, Nil, Nil),
                Lit::Let(V(10), Op::SlotRoot, V(1), V(9), Nil, Nil),
                Lit::Let(V(11), Op::Bare, V(10), Nil, Nil, Nil),
            ],
        },
        // edge p x y <- index_acc p id a, load_crit id, n = Zero, rs = SlotRoot id n, slot =
        //     Bare rs, points p slot v, w = OfPath v, y = StepTo w a, t = StepsOf y, paths t,
        //     rx = ResRoot id, x = Bare rx
        Clause {
            head: EDGE,
            cols: (V(0), V(11), V(8), Nil),
            body: seq![
                Lit::Has(INDEX_ACC, V(0), V(1), V(2), Nil),
                Lit::Has(LOAD_CRIT, V(1), Nil, Nil, Nil),
                Lit::Let(V(3), Op::Zero, Nil, Nil, Nil, Nil),
                Lit::Let(V(4), Op::SlotRoot, V(1), V(3), Nil, Nil),
                Lit::Let(V(5), Op::Bare, V(4), Nil, Nil, Nil),
                Lit::Has(POINTS, V(0), V(5), V(6), Nil),
                Lit::Let(V(7), Op::OfPath, V(6), Nil, Nil, Nil),
                Lit::Let(V(8), Op::StepTo, V(7), V(2), Nil, Nil),
                Lit::Let(V(9), Op::StepsOf, V(8), Nil, Nil, Nil),
                Lit::Has(PATHS, V(9), Nil, Nil, Nil),
                Lit::Let(V(10), Op::ResRoot, V(1), Nil, Nil, Nil),
                Lit::Let(V(11), Op::Bare, V(10), Nil, Nil, Nil),
            ],
        },
        // edge p x y <- index_acc p id a, store_crit id, n = Zero, rs = SlotRoot id n, slot =
        //     Bare rs, points p slot v, w = OfPath v, x = StepTo w a, t = StepsOf x, paths t,
        //     m = Two, ry = SlotRoot id m, y = Bare ry
        Clause {
            head: EDGE,
            cols: (V(0), V(8), V(12), Nil),
            body: seq![
                Lit::Has(INDEX_ACC, V(0), V(1), V(2), Nil),
                Lit::Has(STORE_CRIT, V(1), Nil, Nil, Nil),
                Lit::Let(V(3), Op::Zero, Nil, Nil, Nil, Nil),
                Lit::Let(V(4), Op::SlotRoot, V(1), V(3), Nil, Nil),
                Lit::Let(V(5), Op::Bare, V(4), Nil, Nil, Nil),
                Lit::Has(POINTS, V(0), V(5), V(6), Nil),
                Lit::Let(V(7), Op::OfPath, V(6), Nil, Nil, Nil),
                Lit::Let(V(8), Op::StepTo, V(7), V(2), Nil, Nil),
                Lit::Let(V(9), Op::StepsOf, V(8), Nil, Nil, Nil),
                Lit::Has(PATHS, V(9), Nil, Nil, Nil),
                Lit::Let(V(10), Op::Two, Nil, Nil, Nil, Nil),
                Lit::Let(V(11), Op::SlotRoot, V(1), V(10), Nil, Nil),
                Lit::Let(V(12), Op::Bare, V(11), Nil, Nil, Nil),
            ],
        },
    ]
}

/// The fixpoint: what is decided, and what follows from it.
fn decisions_rules() -> (r: Vec<Rule>)
    ensures
        clauses(r@) == decisions_clauses(),
{
    let mut r: Vec<Rule> = Vec::new();
    let body: Vec<Lit> = vec![
        Lit::Has(PENDING, V(0), V(1), Nil, Nil),
        Lit::Has(DECISIVE_SLOT, V(1), V(2), Nil, Nil),
        Lit::Let(V(3), Op::SlotRoot, V(1), V(2), Nil, Nil),
        Lit::Let(V(4), Op::Bare, V(3), Nil, Nil, Nil),
        Lit::Has(POINTS, V(0), V(4), V(5), Nil),
        Lit::Let(V(6), Op::OfPath, V(5), Nil, Nil, Nil),
        Lit::Let(V(7), Op::RootOf, V(6), Nil, Nil, Nil),
        Lit::Has(FREE_ROOT, V(0), V(7), Nil, Nil),
    ];
    r.push(Rule { head: BLOCKED, cols: (V(0), V(1), Nil, Nil), body });
    let body: Vec<Lit> = vec![
        Lit::Has(BLOCKED, V(0), V(1), Nil, Nil),
        Lit::Has(STUCK, V(0), V(1), Nil, Nil),
    ];
    r.push(Rule { head: TOP, cols: (V(0), V(1), Nil, Nil), body });
    let body: Vec<Lit> = vec![
        Lit::Has(PENDING, V(0), V(1), Nil, Nil),
        Lit::Lacks(WILL_PROPAGATE, V(0), V(1), Nil, Nil),
        Lit::Has(CALL_CRIT, V(1), Nil, Nil, Nil),
        Lit::Let(V(2), Op::Zero, Nil, Nil, Nil, Nil),
        Lit::Let(V(3), Op::SlotRoot, V(1), V(2), Nil, Nil),
        Lit::Let(V(4), Op::Bare, V(3), Nil, Nil, Nil),
        Lit::Has(POINTS, V(0), V(4), V(5), Nil),
        Lit::Let(V(6), Op::OfAlloc, V(5), Nil, Nil, Nil),
        Lit::Has(ALLOC_TYPE, V(6), V(7), Nil, Nil),
        Lit::Has(CRIT_SIG, V(1), V(8), Nil, Nil),
        Lit::Has(LOOKUP, V(7), V(8), V(9), Nil),
    ];
    r.push(Rule { head: RESOLVE, cols: (V(0), V(1), V(9), Nil), body });
    let body: Vec<Lit> = vec![
        Lit::Has(TOP, V(0), V(1), Nil, Nil),
        Lit::Has(CALL_CRIT, V(1), Nil, Nil, Nil),
        Lit::Has(CRIT_SIG, V(1), V(2), Nil, Nil),
        Lit::Has(SIG_TARGET, V(2), V(3), Nil, Nil),
    ];
    r.push(Rule { head: RESOLVE, cols: (V(0), V(1), V(3), Nil), body });
    let body: Vec<Lit> = vec![
        Lit::Has(PENDING, V(0), V(1), Nil, Nil),
        Lit::Lacks(WILL_PROPAGATE, V(0), V(1), Nil, Nil),
        Lit::Has(INDEX_CRIT, V(1), Nil, Nil, Nil),
        Lit::Let(V(2), Op::One, Nil, Nil, Nil, Nil),
        Lit::Let(V(3), Op::SlotRoot, V(1), V(2), Nil, Nil),
        Lit::Let(V(4), Op::Bare, V(3), Nil, Nil, Nil),
        Lit::Has(POINTS, V(0), V(4), V(5), Nil),
        Lit::Let(V(6), Op::OfAlloc, V(5), Nil, Nil, Nil),
    ];
    r.push(Rule { head: INDEX_UNDECIDABLE, cols: (V(0), V(1), Nil, Nil), body });
    let body: Vec<Lit> = vec![
        Lit::Has(PENDING, V(0), V(1), Nil, Nil),
        Lit::Lacks(WILL_PROPAGATE, V(0), V(1), Nil, Nil),
        Lit::Has(INDEX_CRIT, V(1), Nil, Nil, Nil),
        Lit::Let(V(2), Op::One, Nil, Nil, Nil, Nil),
        Lit::Let(V(3), Op::SlotRoot, V(1), V(2), Nil, Nil),
        Lit::Let(V(4), Op::Bare, V(3), Nil, Nil, Nil),
        Lit::Has(POINTS, V(0), V(4), V(5), Nil),
        Lit::Let(V(6), Op::OfConst, V(5), Nil, Nil, Nil),
        Lit::Let(V(7), Op::ByIndex, V(6), Nil, Nil, Nil),
    ];
    r.push(Rule { head: INDEX_ACC, cols: (V(0), V(1), V(7), Nil), body });
    let body: Vec<Lit> = vec![
        Lit::Has(INDEX_UNDECIDABLE, V(0), V(1), Nil, Nil),
        Lit::Let(V(2), Op::ByUnknown, Nil, Nil, Nil, Nil),
    ];
    r.push(Rule { head: INDEX_ACC, cols: (V(0), V(1), V(2), Nil), body });
    let body: Vec<Lit> = vec![
        Lit::Has(TOP, V(0), V(1), Nil, Nil),
        Lit::Has(INDEX_CRIT, V(1), Nil, Nil, Nil),
        Lit::Let(V(2), Op::ByUnknown, Nil, Nil, Nil, Nil),
    ];
    r.push(Rule { head: INDEX_ACC, cols: (V(0), V(1), V(2), Nil), body });
    let body: Vec<Lit> = vec![
        Lit::Has(RESOLVE, V(0), V(1), V(2), Nil),
        Lit::Has(PENDING, V(2), V(3), Nil, Nil),
        Lit::Has(K_LIMIT, V(4), Nil, Nil, Nil),
        Lit::Let(Nil, Op::NestsWithin, V(3), V(1), V(4), Nil),
        Lit::Let(V(5), Op::Nest, V(3), V(1), Nil, Nil),
    ];
    r.push(Rule { head: PENDING, cols: (V(0), V(5), Nil, Nil), body });
    let body: Vec<Lit> = vec![
        Lit::Has(RESOLVE, V(0), V(1), V(2), Nil),
        Lit::Has(POINTS, V(2), V(3), V(4), Nil),
        Lit::Let(V(5), Op::OfPath, V(4), Nil, Nil, Nil),
        Lit::Has(K_LIMIT, V(6), Nil, Nil, Nil),
        Lit::Let(V(7), Op::RootOf, V(3), Nil, Nil, Nil),
        Lit::Let(V(8), Op::CritRoot, V(2), V(1), V(7), V(6)),
        Lit::Let(V(9), Op::RootOf, V(5), Nil, Nil, Nil),
        Lit::Let(V(10), Op::CritRoot, V(2), V(1), V(9), V(6)),
        Lit::Let(V(11), Op::Rebase, V(3), V(8), Nil, Nil),
        Lit::Let(V(12), Op::Rebase, V(5), V(10), Nil, Nil),
    ];
    r.push(Rule { head: EDGE, cols: (V(0), V(11), V(12), Nil), body });
    let body: Vec<Lit> = vec![
        Lit::Has(RESOLVE, V(0), V(1), V(2), Nil),
        Lit::Has(PUB_POINTS, V(2), V(3), V(4), Nil),
        Lit::Has(K_LIMIT, V(5), Nil, Nil, Nil),
        Lit::Let(V(6), Op::RootOf, V(3), Nil, Nil, Nil),
        Lit::Let(V(7), Op::CritRoot, V(2), V(1), V(6), V(5)),
        Lit::Let(V(8), Op::Rebase, V(3), V(7), Nil, Nil),
    ];
    r.push(Rule { head: POINTS, cols: (V(0), V(8), V(4), Nil), body });
    let body: Vec<Lit> = vec![
        Lit::Has(INDEX_ACC, V(0), V(1), V(2), Nil),
        Lit::Has(LOAD_CRIT, V(1), Nil, Nil, Nil),
        Lit::Let(V(3), Op::Zero, Nil, Nil, Nil, Nil),
        Lit::Let(V(4), Op::SlotRoot, V(1), V(3), Nil, Nil),
        Lit::Let(V(5), Op::Bare, V(4), Nil, Nil, Nil),
        Lit::Has(EDGE, V(0), V(5), V(6), Nil),
        Lit::Let(V(7), Op::StepTo, V(6), V(2), Nil, Nil),
        Lit::Let(V(8), Op::StepsOf, V(7), Nil, Nil, Nil),
        Lit::Has(PATHS, V(8), Nil, Nil, Nil),
        Lit::Let(V(9), Op::ResRoot, V(1), Nil, Nil, Nil),
        Lit::Let(V(10), Op::Bare, V(9), Nil, Nil, Nil),
    ];
    r.push(Rule { head: EDGE, cols: (V(0), V(10), V(7), Nil), body });
    let body: Vec<Lit> = vec![
        Lit::Has(INDEX_ACC, V(0), V(1), V(2), Nil),
        Lit::Has(STORE_CRIT, V(1), Nil, Nil, Nil),
        Lit::Let(V(3), Op::Zero, Nil, Nil, Nil, Nil),
        Lit::Let(V(4), Op::SlotRoot, V(1), V(3), Nil, Nil),
        Lit::Let(V(5), Op::Bare, V(4), Nil, Nil, Nil),
        Lit::Has(EDGE, V(0), V(5), V(6), Nil),
        Lit::Let(V(7), Op::StepTo, V(6), V(2), Nil, Nil),
        Lit::Let(V(8), Op::StepsOf, V(7), Nil, Nil, Nil),
        Lit::Has(PATHS, V(8), Nil, Nil, Nil),
        Lit::Let(V(9), Op::Two, Nil, Nil, Nil, Nil),
        Lit::Let(V(10), Op::SlotRoot, V(1), V(9), Nil, Nil),
        Lit::Let(V(11), Op::Bare, V(10), Nil, Nil, Nil),
    ];
    r.push(Rule { head: EDGE, cols: (V(0), V(7), V(11), Nil), body });
    let body: Vec<Lit> = vec![
        Lit::Has(INDEX_ACC, V(0), V(1), V(2), Nil),
        Lit::Has(LOAD_CRIT, V(1), Nil, Nil, Nil),
        Lit::Let(V(3), Op::Zero, Nil, Nil, Nil, Nil),
        Lit::Let(V(4), Op::SlotRoot, V(1), V(3), Nil, Nil),
        Lit::Let(V(5), Op::Bare, V(4), Nil, Nil, Nil),
        Lit::Has(POINTS, V(0), V(5), V(6), Nil),
        Lit::Let(V(7), Op::OfPath, V(6), Nil, Nil, Nil),
        Lit::Let(V(8), Op::StepTo, V(7), V(2), Nil, Nil),
        Lit::Let(V(9), Op::StepsOf, V(8), Nil, Nil, Nil),
        Lit::Has(PATHS, V(9), Nil, Nil, Nil),
        Lit::Let(V(10), Op::ResRoot, V(1), Nil, Nil, Nil),
        Lit::Let(V(11), Op::Bare, V(10), Nil, Nil, Nil),
    ];
    r.push(Rule { head: EDGE, cols: (V(0), V(11), V(8), Nil), body });
    let body: Vec<Lit> = vec![
        Lit::Has(INDEX_ACC, V(0), V(1), V(2), Nil),
        Lit::Has(STORE_CRIT, V(1), Nil, Nil, Nil),
        Lit::Let(V(3), Op::Zero, Nil, Nil, Nil, Nil),
        Lit::Let(V(4), Op::SlotRoot, V(1), V(3), Nil, Nil),
        Lit::Let(V(5), Op::Bare, V(4), Nil, Nil, Nil),
        Lit::Has(POINTS, V(0), V(5), V(6), Nil),
        Lit::Let(V(7), Op::OfPath, V(6), Nil, Nil, Nil),
        Lit::Let(V(8), Op::StepTo, V(7), V(2), Nil, Nil),
        Lit::Let(V(9), Op::StepsOf, V(8), Nil, Nil, Nil),
        Lit::Has(PATHS, V(9), Nil, Nil, Nil),
        Lit::Let(V(10), Op::Two, Nil, Nil, Nil, Nil),
        Lit::Let(V(11), Op::SlotRoot, V(1), V(10), Nil, Nil),
        Lit::Let(V(12), Op::Bare, V(11), Nil, Nil, Nil),
    ];
    r.push(Rule { head: EDGE, cols: (V(0), V(8), V(12), Nil), body });
    proof {
        let s = decisions_clauses();
        assert(r@[0]@ =~= s[0]);
        assert(r@[1]@ =~= s[1]);
        assert(r@[2]@ =~= s[2]);
        assert(r@[3]@ =~= s[3]);
        assert(r@[4]@ =~= s[4]);
        assert(r@[5]@ =~= s[5]);
        assert(r@[6]@ =~= s[6]);
        assert(r@[7]@ =~= s[7]);
        assert(r@[8]@ =~= s[8]);
        assert(r@[9]@ =~= s[9]);
        assert(r@[10]@ =~= s[10]);
        assert(r@[11]@ =~= s[11]);
        assert(r@[12]@ =~= s[12]);
        assert(r@[13]@ =~= s[13]);
        assert(r@[14]@ =~= s[14]);
        assert(clauses(r@) =~= s);
    }
    r
}

// ---------------------------------------------------------------------------
// Rules: reports
// ---------------------------------------------------------------------------

/// What is adequate and what is settled.
pub open spec fn reports_clauses() -> Seq<Clause> {
    seq![
        // adequate p id <- pending p id, ! blocked p id
        Clause {
            head: ADEQUATE,
            cols: (V(0), V(1), Nil, Nil),
            body: seq![
                Lit::Has(PENDING, V(0), V(1), Nil, Nil),
                Lit::Lacks(BLOCKED, V(0), V(1), Nil, Nil),
            ],
        },
        // settled p id <- resolve p id _, ! blocked p id
        Clause {
            head: SETTLED,
            cols: (V(0), V(1), Nil, Nil),
            body: seq![
                Lit::Has(RESOLVE, V(0), V(1), Any, Nil),
                Lit::Lacks(BLOCKED, V(0), V(1), Nil, Nil),
            ],
        },
        // settled p id <- index_acc p id _, ! blocked p id
        Clause {
            head: SETTLED,
            cols: (V(0), V(1), Nil, Nil),
            body: seq![
                Lit::Has(INDEX_ACC, V(0), V(1), Any, Nil),
                Lit::Lacks(BLOCKED, V(0), V(1), Nil, Nil),
            ],
        },
        // settled p id <- top p id
        Clause {
            head: SETTLED,
            cols: (V(0), V(1), Nil, Nil),
            body: seq![
                Lit::Has(TOP, V(0), V(1), Nil, Nil),
            ],
        },
    ]
}

/// What is adequate and what is settled.
fn reports_rules() -> (r: Vec<Rule>)
    ensures
        clauses(r@) == reports_clauses(),
{
    let mut r: Vec<Rule> = Vec::new();
    let body: Vec<Lit> = vec![
        Lit::Has(PENDING, V(0), V(1), Nil, Nil),
        Lit::Lacks(BLOCKED, V(0), V(1), Nil, Nil),
    ];
    r.push(Rule { head: ADEQUATE, cols: (V(0), V(1), Nil, Nil), body });
    let body: Vec<Lit> = vec![
        Lit::Has(RESOLVE, V(0), V(1), Any, Nil),
        Lit::Lacks(BLOCKED, V(0), V(1), Nil, Nil),
    ];
    r.push(Rule { head: SETTLED, cols: (V(0), V(1), Nil, Nil), body });
    let body: Vec<Lit> = vec![
        Lit::Has(INDEX_ACC, V(0), V(1), Any, Nil),
        Lit::Lacks(BLOCKED, V(0), V(1), Nil, Nil),
    ];
    r.push(Rule { head: SETTLED, cols: (V(0), V(1), Nil, Nil), body });
    let body: Vec<Lit> = vec![
        Lit::Has(TOP, V(0), V(1), Nil, Nil),
    ];
    r.push(Rule { head: SETTLED, cols: (V(0), V(1), Nil, Nil), body });
    proof {
        let s = reports_clauses();
        assert(r@[0]@ =~= s[0]);
        assert(r@[1]@ =~= s[1]);
        assert(r@[2]@ =~= s[2]);
        assert(r@[3]@ =~= s[3]);
        assert(clauses(r@) =~= s);
    }
    r
}

// ---------------------------------------------------------------------------
// The groups
// ---------------------------------------------------------------------------

/// The rules of the fixpoint.
pub open spec fn fixpoint_clauses() -> Seq<Clause> {
    statements_clauses() + flow_clauses() + placeholders_clauses() + roots_clauses()
        + decisions_clauses()
}

/// The groups, from the bottom up. What a group negates or counts is settled below it.
pub open spec fn groups() -> Seq<Seq<Clause>> {
    seq![
        targets_clauses(),
        sizes_clauses(),
        calls_clauses(),
        fixpoint_clauses(),
        reports_clauses(),
    ]
}

fn append(v: &mut Vec<Rule>, more: Vec<Rule>)
    ensures
        clauses(final(v)@) == clauses(old(v)@) + clauses(more@),
{
    let ghost start = v@;
    let mut rest = more;
    v.append(&mut rest);
    proof {
        assert(clauses(v@) =~= clauses(start) + clauses(more@));
    }
}

fn fixpoint_rules() -> (r: Vec<Rule>)
    ensures
        clauses(r@) == fixpoint_clauses(),
{
    let mut r = statements_rules();
    append(&mut r, flow_rules());
    append(&mut r, placeholders_rules());
    append(&mut r, roots_rules());
    append(&mut r, decisions_rules());
    r
}

/// The rules of group `k`.
pub fn group(k: usize) -> (r: Vec<Rule>)
    requires
        k < 5,
    ensures
        clauses(r@) == groups()[k as int],
        all_known(clauses(r@)),
{
    if k == 0 {
        targets_rules()
    } else if k == 1 {
        sizes_rules()
    } else if k == 2 {
        calls_rules()
    } else if k == 3 {
        fixpoint_rules()
    } else {
        reports_rules()
    }
}

} // verus!
