//! A facade whose virtual call only a context can pin, in the [`crate::ir`] schema.
//!
//! ```java
//!  1 public class Obj{}
//!  2 public interface X{
//!  3   Obj poly(Obj obj);
//!  4 }
//!  5 public class Y implements X{
//!  7   public Obj poly(Obj obj){
//!  8     return obj;
//!  9   }
//! 10 }
//! 11 public class Z implements X{
//! 13   public Obj poly(Obj obj){
//! 14     return new Obj();
//! 15   }
//! 16 }
//! 17 public class FacadeImpl{
//! 18   public X id(X x){
//! 19     X tv = x;
//! 20     return tv;
//! 21   }
//! 22   public Obj foo(X x, Obj obj){
//! 24     X tx = id(x);
//! 25     return tx.poly(obj);
//! 26   }
//! 27   public Obj mid(X x, Obj obj){
//! 28     return foo(x, obj);
//! 29   }
//! 30   public Obj bar1(Obj obj){
//! 31     return mid(new Y(), obj);
//! 32   }
//! 33   public Obj bar2(Obj obj){
//! 34     return mid(new Z(), obj);
//! 35   }
//! 36   public void service(){
//! 37     Obj first = new Obj();
//! 38     Obj second = bar1(first);
//! 39     Obj third = bar2(first);
//! 40     assert(first == second);
//! 41     assert(first != third);
//! 42   }
//! 43 }
//! ```
//!
//! Nested expressions are flattened into temporaries (`t31`, `r25`, ...) and
//! every statement gets a label naming its source line. `service()` is the
//! entry procedure; the interesting statement is `L25`, the virtual call whose
//! callee is only pinned down once the context fixes `tx`'s type.
use vstd::prelude::*;

use crate::ir::Program;
use crate::sheet::{
    indexed_facts, indexed_list, one_facts, one_list, placed_facts, placed_list, three_facts,
    three_list, two_facts, two_list,
};

verus! {

/// The facts of the facade.
pub fn figure1() -> (r: Program)
    ensures
        one_list(r.procedure@) == seq![
            "Y.poly"@,
            "Z.poly"@,
            "FacadeImpl.id"@,
            "FacadeImpl.foo"@,
            "FacadeImpl.mid"@,
            "FacadeImpl.bar1"@,
            "FacadeImpl.bar2"@,
            "FacadeImpl.service"@,
        ],
        one_list(r.entry@) == seq!["FacadeImpl.service"@],
        two_list(r.proc_type@) == seq![
            ("Y.poly"@, "Y"@),
            ("Z.poly"@, "Z"@),
            ("FacadeImpl.id"@, "FacadeImpl"@),
            ("FacadeImpl.foo"@, "FacadeImpl"@),
            ("FacadeImpl.mid"@, "FacadeImpl"@),
            ("FacadeImpl.bar1"@, "FacadeImpl"@),
            ("FacadeImpl.bar2"@, "FacadeImpl"@),
            ("FacadeImpl.service"@, "FacadeImpl"@),
        ],
        two_list(r.proc_sig@) == seq![
            ("Y.poly"@, "poly(Obj)"@),
            ("Z.poly"@, "poly(Obj)"@),
        ],
        placed_list(r.in_proc@) == seq![
            ("L14"@, "Z.poly"@, 0usize),
            ("L19"@, "FacadeImpl.id"@, 0usize),
            ("L24"@, "FacadeImpl.foo"@, 0usize),
            ("L25"@, "FacadeImpl.foo"@, 1usize),
            ("L28"@, "FacadeImpl.mid"@, 0usize),
            ("L31a"@, "FacadeImpl.bar1"@, 0usize),
            ("L31b"@, "FacadeImpl.bar1"@, 1usize),
            ("L34a"@, "FacadeImpl.bar2"@, 0usize),
            ("L34b"@, "FacadeImpl.bar2"@, 1usize),
            ("L37"@, "FacadeImpl.service"@, 0usize),
            ("L38"@, "FacadeImpl.service"@, 1usize),
            ("L39"@, "FacadeImpl.service"@, 2usize),
        ],
        three_list(r.alloc@) == seq![
            ("L14"@, "t14"@, "l14"@),
            ("L31a"@, "t31"@, "l31"@),
            ("L34a"@, "t34"@, "l34"@),
            ("L37"@, "first"@, "l37"@),
        ],
        two_list(r.alloc_type@) == seq![
            ("l14"@, "Obj"@),
            ("l31"@, "Y"@),
            ("l34"@, "Z"@),
            ("l37"@, "Obj"@),
        ],
        r.const_assign@.len() == 0,
        three_list(r.mov@) == seq![
            ("L19"@, "tv"@, "x@id"@),
        ],
        r.load_field@.len() == 0,
        r.store_field@.len() == 0,
        r.load_static@.len() == 0,
        r.store_static@.len() == 0,
        r.load_index_const@.len() == 0,
        r.store_index_const@.len() == 0,
        r.load_index_var@.len() == 0,
        r.store_index_var@.len() == 0,
        two_list(r.direct_call@) == seq![
            ("L24"@, "FacadeImpl.id"@),
            ("L28"@, "FacadeImpl.foo"@),
            ("L31b"@, "FacadeImpl.mid"@),
            ("L34b"@, "FacadeImpl.mid"@),
            ("L38"@, "FacadeImpl.bar1"@),
            ("L39"@, "FacadeImpl.bar2"@),
        ],
        three_list(r.virtual_call@) == seq![
            ("L25"@, "tx"@, "poly(Obj)"@),
        ],
        indexed_list(r.actual_arg@) == seq![
            ("L24"@, 0usize, "this@foo"@),
            ("L24"@, 1usize, "x@foo"@),
            ("L25"@, 0usize, "tx"@),
            ("L25"@, 1usize, "obj@foo"@),
            ("L28"@, 0usize, "this@mid"@),
            ("L28"@, 1usize, "x@mid"@),
            ("L28"@, 2usize, "obj@mid"@),
            ("L31b"@, 0usize, "this@bar1"@),
            ("L31b"@, 1usize, "t31"@),
            ("L31b"@, 2usize, "obj@bar1"@),
            ("L34b"@, 0usize, "this@bar2"@),
            ("L34b"@, 1usize, "t34"@),
            ("L34b"@, 2usize, "obj@bar2"@),
            ("L38"@, 0usize, "this@service"@),
            ("L38"@, 1usize, "first"@),
            ("L39"@, 0usize, "this@service"@),
            ("L39"@, 1usize, "first"@),
        ],
        two_list(r.bind_ret@) == seq![
            ("L24"@, "tx"@),
            ("L25"@, "r25"@),
            ("L28"@, "r28"@),
            ("L31b"@, "r31"@),
            ("L34b"@, "r34"@),
            ("L38"@, "second"@),
            ("L39"@, "third"@),
        ],
        indexed_list(r.formal@) == seq![
            ("Y.poly"@, 0usize, "this@Y.poly"@),
            ("Y.poly"@, 1usize, "obj@Y.poly"@),
            ("Z.poly"@, 0usize, "this@Z.poly"@),
            ("Z.poly"@, 1usize, "obj@Z.poly"@),
            ("FacadeImpl.id"@, 0usize, "this@id"@),
            ("FacadeImpl.id"@, 1usize, "x@id"@),
            ("FacadeImpl.foo"@, 0usize, "this@foo"@),
            ("FacadeImpl.foo"@, 1usize, "x@foo"@),
            ("FacadeImpl.foo"@, 2usize, "obj@foo"@),
            ("FacadeImpl.mid"@, 0usize, "this@mid"@),
            ("FacadeImpl.mid"@, 1usize, "x@mid"@),
            ("FacadeImpl.mid"@, 2usize, "obj@mid"@),
            ("FacadeImpl.bar1"@, 0usize, "this@bar1"@),
            ("FacadeImpl.bar1"@, 1usize, "obj@bar1"@),
            ("FacadeImpl.bar2"@, 0usize, "this@bar2"@),
            ("FacadeImpl.bar2"@, 1usize, "obj@bar2"@),
            ("FacadeImpl.service"@, 0usize, "this@service"@),
        ],
        two_list(r.ret@) == seq![
            ("Y.poly"@, "obj@Y.poly"@),
            ("Z.poly"@, "t14"@),
            ("FacadeImpl.id"@, "tv"@),
            ("FacadeImpl.foo"@, "r25"@),
            ("FacadeImpl.mid"@, "r28"@),
            ("FacadeImpl.bar1"@, "r31"@),
            ("FacadeImpl.bar2"@, "r34"@),
        ],
        two_list(r.direct_subtype@) == seq![
            ("Y"@, "X"@),
            ("Z"@, "X"@),
        ],
        three_list(r.lookup@) == seq![
            ("Y"@, "poly(Obj)"@, "Y.poly"@),
            ("Z"@, "poly(Obj)"@, "Z.poly"@),
        ],
        r.paths@.len() == 0,
{
    let mut prog = Program::default();
    let procedure: Vec<&str> = vec![
        "Y.poly",
        "Z.poly",
        "FacadeImpl.id",
        "FacadeImpl.foo",
        "FacadeImpl.mid",
        "FacadeImpl.bar1",
        "FacadeImpl.bar2",
        "FacadeImpl.service",
    ];
    prog.procedure = one_facts(&procedure);
    let entry: Vec<&str> = vec![
        "FacadeImpl.service",
    ];
    prog.entry = one_facts(&entry);
    let proc_type: Vec<(&str, &str)> = vec![
        ("Y.poly", "Y"),
        ("Z.poly", "Z"),
        ("FacadeImpl.id", "FacadeImpl"),
        ("FacadeImpl.foo", "FacadeImpl"),
        ("FacadeImpl.mid", "FacadeImpl"),
        ("FacadeImpl.bar1", "FacadeImpl"),
        ("FacadeImpl.bar2", "FacadeImpl"),
        ("FacadeImpl.service", "FacadeImpl"),
    ];
    prog.proc_type = two_facts(&proc_type);
    let proc_sig: Vec<(&str, &str)> = vec![
        ("Y.poly", "poly(Obj)"),
        ("Z.poly", "poly(Obj)"),
    ];
    prog.proc_sig = two_facts(&proc_sig);
    let in_proc: Vec<(&str, &str, usize)> = vec![
        ("L14", "Z.poly", 0),
        ("L19", "FacadeImpl.id", 0),
        ("L24", "FacadeImpl.foo", 0),
        ("L25", "FacadeImpl.foo", 1),
        ("L28", "FacadeImpl.mid", 0),
        ("L31a", "FacadeImpl.bar1", 0),
        ("L31b", "FacadeImpl.bar1", 1),
        ("L34a", "FacadeImpl.bar2", 0),
        ("L34b", "FacadeImpl.bar2", 1),
        ("L37", "FacadeImpl.service", 0),
        ("L38", "FacadeImpl.service", 1),
        ("L39", "FacadeImpl.service", 2),
    ];
    prog.in_proc = placed_facts(&in_proc);
    let alloc: Vec<(&str, &str, &str)> = vec![
        ("L14", "t14", "l14"),
        ("L31a", "t31", "l31"),
        ("L34a", "t34", "l34"),
        ("L37", "first", "l37"),
    ];
    prog.alloc = three_facts(&alloc);
    let alloc_type: Vec<(&str, &str)> = vec![
        ("l14", "Obj"),
        ("l31", "Y"),
        ("l34", "Z"),
        ("l37", "Obj"),
    ];
    prog.alloc_type = two_facts(&alloc_type);
    let mov: Vec<(&str, &str, &str)> = vec![
        ("L19", "tv", "x@id"),
    ];
    prog.mov = three_facts(&mov);
    let direct_call: Vec<(&str, &str)> = vec![
        ("L24", "FacadeImpl.id"),
        ("L28", "FacadeImpl.foo"),
        ("L31b", "FacadeImpl.mid"),
        ("L34b", "FacadeImpl.mid"),
        ("L38", "FacadeImpl.bar1"),
        ("L39", "FacadeImpl.bar2"),
    ];
    prog.direct_call = two_facts(&direct_call);
    let virtual_call: Vec<(&str, &str, &str)> = vec![
        ("L25", "tx", "poly(Obj)"),
    ];
    prog.virtual_call = three_facts(&virtual_call);
    let actual_arg: Vec<(&str, usize, &str)> = vec![
        ("L24", 0, "this@foo"),
        ("L24", 1, "x@foo"),
        ("L25", 0, "tx"),
        ("L25", 1, "obj@foo"),
        ("L28", 0, "this@mid"),
        ("L28", 1, "x@mid"),
        ("L28", 2, "obj@mid"),
        ("L31b", 0, "this@bar1"),
        ("L31b", 1, "t31"),
        ("L31b", 2, "obj@bar1"),
        ("L34b", 0, "this@bar2"),
        ("L34b", 1, "t34"),
        ("L34b", 2, "obj@bar2"),
        ("L38", 0, "this@service"),
        ("L38", 1, "first"),
        ("L39", 0, "this@service"),
        ("L39", 1, "first"),
    ];
    prog.actual_arg = indexed_facts(&actual_arg);
    let bind_ret: Vec<(&str, &str)> = vec![
        ("L24", "tx"),
        ("L25", "r25"),
        ("L28", "r28"),
        ("L31b", "r31"),
        ("L34b", "r34"),
        ("L38", "second"),
        ("L39", "third"),
    ];
    prog.bind_ret = two_facts(&bind_ret);
    let formal: Vec<(&str, usize, &str)> = vec![
        ("Y.poly", 0, "this@Y.poly"),
        ("Y.poly", 1, "obj@Y.poly"),
        ("Z.poly", 0, "this@Z.poly"),
        ("Z.poly", 1, "obj@Z.poly"),
        ("FacadeImpl.id", 0, "this@id"),
        ("FacadeImpl.id", 1, "x@id"),
        ("FacadeImpl.foo", 0, "this@foo"),
        ("FacadeImpl.foo", 1, "x@foo"),
        ("FacadeImpl.foo", 2, "obj@foo"),
        ("FacadeImpl.mid", 0, "this@mid"),
        ("FacadeImpl.mid", 1, "x@mid"),
        ("FacadeImpl.mid", 2, "obj@mid"),
        ("FacadeImpl.bar1", 0, "this@bar1"),
        ("FacadeImpl.bar1", 1, "obj@bar1"),
        ("FacadeImpl.bar2", 0, "this@bar2"),
        ("FacadeImpl.bar2", 1, "obj@bar2"),
        ("FacadeImpl.service", 0, "this@service"),
    ];
    prog.formal = indexed_facts(&formal);
    let ret: Vec<(&str, &str)> = vec![
        ("Y.poly", "obj@Y.poly"),
        ("Z.poly", "t14"),
        ("FacadeImpl.id", "tv"),
        ("FacadeImpl.foo", "r25"),
        ("FacadeImpl.mid", "r28"),
        ("FacadeImpl.bar1", "r31"),
        ("FacadeImpl.bar2", "r34"),
    ];
    prog.ret = two_facts(&ret);
    let direct_subtype: Vec<(&str, &str)> = vec![
        ("Y", "X"),
        ("Z", "X"),
    ];
    prog.direct_subtype = two_facts(&direct_subtype);
    let lookup: Vec<(&str, &str, &str)> = vec![
        ("Y", "poly(Obj)", "Y.poly"),
        ("Z", "poly(Obj)", "Z.poly"),
    ];
    prog.lookup = three_facts(&lookup);
    prog
}

} // verus!
