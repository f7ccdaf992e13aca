//! Two map accesses whose index only a caller can pin, in the [`crate::ir`] schema.
//!
//! ```java
//!  1 getP(map, key){
//!  2   return map[key];
//!  3 }
//!  4 setP(map, key, v){
//!  5   map[key] = v;
//!  6 }
//!  7 build(u){
//!  8   v = new;
//!  9   setP(v, "old",
//! 10     getP(u, "cur"));
//! 11   return v;
//! 12 }
//! ```
//!
//! Neither map access can be summarized for every context: the index lives in `key`,
//! whose points-to set contains the free variable `par_2` while `getP` and `setP` are
//! being summarized, and the values it may take are unbounded.
//!
//! Nested expressions are flattened into temporaries, and parameter 0 is the
//! receiver, so `map` is `par_1`, `key` is `par_2` and `u` is `par_1@build`.
use vstd::prelude::*;

use crate::ir::Program;
use crate::sheet::{
    four_facts, four_list, indexed_facts, indexed_list, one_facts, one_list, placed_facts,
    placed_list, three_facts, three_list, two_facts, two_list,
};

verus! {

/// The facts of the two map accesses and their caller.
pub fn program() -> (r: Program)
    ensures
        one_list(r.procedure@) == seq!["getP"@, "setP"@, "build"@],
        one_list(r.entry@) == seq!["build"@],
        r.proc_type@.len() == 0,
        r.proc_sig@.len() == 0,
        placed_list(r.in_proc@) == seq![
            ("L2"@, "getP"@, 0usize),
            ("L5"@, "setP"@, 0usize),
            ("L8"@, "build"@, 0usize),
            ("L9a"@, "build"@, 1usize),
            ("L9b"@, "build"@, 2usize),
            ("L9c"@, "build"@, 3usize),
            ("L9d"@, "build"@, 4usize),
        ],
        three_list(r.alloc@) == seq![
            ("L8"@, "v"@, "l8"@),
        ],
        two_list(r.alloc_type@) == seq![
            ("l8"@, "Obj"@),
        ],
        three_list(r.const_assign@) == seq![
            ("L9a"@, "c_cur"@, "\"cur\""@),
            ("L9c"@, "c_old"@, "\"old\""@),
        ],
        r.mov@.len() == 0,
        r.load_field@.len() == 0,
        r.store_field@.len() == 0,
        r.load_static@.len() == 0,
        r.store_static@.len() == 0,
        r.load_index_const@.len() == 0,
        r.store_index_const@.len() == 0,
        four_list(r.load_index_var@) == seq![
            ("L2"@, "t2"@, "map@getP"@, "key@getP"@),
        ],
        four_list(r.store_index_var@) == seq![
            ("L5"@, "map@setP"@, "key@setP"@, "val@setP"@),
        ],
        two_list(r.direct_call@) == seq![
            ("L9b"@, "getP"@),
            ("L9d"@, "setP"@),
        ],
        r.virtual_call@.len() == 0,
        indexed_list(r.actual_arg@) == seq![
            ("L9b"@, 0usize, "this@build"@),
            ("L9b"@, 1usize, "u@build"@),
            ("L9b"@, 2usize, "c_cur"@),
            ("L9d"@, 0usize, "this@build"@),
            ("L9d"@, 1usize, "v"@),
            ("L9d"@, 2usize, "c_old"@),
            ("L9d"@, 3usize, "t9"@),
        ],
        two_list(r.bind_ret@) == seq![
            ("L9b"@, "t9"@),
        ],
        indexed_list(r.formal@) == seq![
            ("getP"@, 0usize, "this@getP"@),
            ("getP"@, 1usize, "map@getP"@),
            ("getP"@, 2usize, "key@getP"@),
            ("setP"@, 0usize, "this@setP"@),
            ("setP"@, 1usize, "map@setP"@),
            ("setP"@, 2usize, "key@setP"@),
            ("setP"@, 3usize, "val@setP"@),
            ("build"@, 0usize, "this@build"@),
            ("build"@, 1usize, "u@build"@),
        ],
        two_list(r.ret@) == seq![
            ("getP"@, "t2"@),
            ("build"@, "v"@),
        ],
        r.direct_subtype@.len() == 0,
        r.lookup@.len() == 0,
        r.paths@.len() == 0,
{
    let mut prog = Program::default();
    let procedure: Vec<&str> = vec![
        "getP",
        "setP",
        "build",
    ];
    prog.procedure = one_facts(&procedure);
    let entry: Vec<&str> = vec![
        "build",
    ];
    prog.entry = one_facts(&entry);
    let in_proc: Vec<(&str, &str, usize)> = vec![
        ("L2", "getP", 0),
        ("L5", "setP", 0),
        ("L8", "build", 0),
        ("L9a", "build", 1),
        ("L9b", "build", 2),
        ("L9c", "build", 3),
        ("L9d", "build", 4),
    ];
    prog.in_proc = placed_facts(&in_proc);
    let alloc: Vec<(&str, &str, &str)> = vec![
        ("L8", "v", "l8"),
    ];
    prog.alloc = three_facts(&alloc);
    let alloc_type: Vec<(&str, &str)> = vec![
        ("l8", "Obj"),
    ];
    prog.alloc_type = two_facts(&alloc_type);
    let const_assign: Vec<(&str, &str, &str)> = vec![
        ("L9a", "c_cur", "\"cur\""),
        ("L9c", "c_old", "\"old\""),
    ];
    prog.const_assign = three_facts(&const_assign);
    let load_index_var: Vec<(&str, &str, &str, &str)> = vec![
        ("L2", "t2", "map@getP", "key@getP"),
    ];
    prog.load_index_var = four_facts(&load_index_var);
    let store_index_var: Vec<(&str, &str, &str, &str)> = vec![
        ("L5", "map@setP", "key@setP", "val@setP"),
    ];
    prog.store_index_var = four_facts(&store_index_var);
    let direct_call: Vec<(&str, &str)> = vec![
        ("L9b", "getP"),
        ("L9d", "setP"),
    ];
    prog.direct_call = two_facts(&direct_call);
    let actual_arg: Vec<(&str, usize, &str)> = vec![
        ("L9b", 0, "this@build"),
        ("L9b", 1, "u@build"),
        ("L9b", 2, "c_cur"),
        ("L9d", 0, "this@build"),
        ("L9d", 1, "v"),
        ("L9d", 2, "c_old"),
        ("L9d", 3, "t9"),
    ];
    prog.actual_arg = indexed_facts(&actual_arg);
    let bind_ret: Vec<(&str, &str)> = vec![
        ("L9b", "t9"),
    ];
    prog.bind_ret = two_facts(&bind_ret);
    let formal: Vec<(&str, usize, &str)> = vec![
        ("getP", 0, "this@getP"),
        ("getP", 1, "map@getP"),
        ("getP", 2, "key@getP"),
        ("setP", 0, "this@setP"),
        ("setP", 1, "map@setP"),
        ("setP", 2, "key@setP"),
        ("setP", 3, "val@setP"),
        ("build", 0, "this@build"),
        ("build", 1, "u@build"),
    ];
    prog.formal = indexed_facts(&formal);
    let ret: Vec<(&str, &str)> = vec![
        ("getP", "t2"),
        ("build", "v"),
    ];
    prog.ret = two_facts(&ret);
    prog
}

} // verus!
