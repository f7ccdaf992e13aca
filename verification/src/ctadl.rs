//! The front end: imports in, the facts of a program out.
//!
//! The intermediate representation ([`crate::cir`]) comes from CTADL, which lowers real
//! artifacts (bytecode, native code, scripts) into it and keeps the result in a store on
//! disk. A project of several artifacts is several imports; names are fully qualified,
//! so imports merge by name.
//!
//! | representation | facts |
//! |----------------|-------|
//! | a function with a body | `procedure`, `formal` |
//! | an assignment | one `mov`, `const_assign` or `alloc` per source |
//! | a created object | `alloc`, `alloc_type` |
//! | a load or store with a field | `load_field`, `store_field` |
//! | offsets in an address | `load_index_const`, `store_index_const` |
//! | either, at the global heap | `load_static`, `store_static` |
//! | a direct call | `direct_call` |
//! | a Java, Lua or pointer call | `virtual_call` |
//! | a method table and hierarchy | `direct_subtype`, `lookup` |
//! | a return | `ret` |
//!
//! Of several returned values only the first is kept, so exception flow is invisible.
//! Parameters are passed by value: what a callee writes through a parameter does not
//! flow back. Entries are the procedures with a body that nothing calls.
use vstd::prelude::*;

use crate::cir::{CirProgram, FunctionData, VirtualMethodTable};
use crate::dispatch;
use crate::ir::{Name, Program};
use crate::ledger::{self, Entry, Kind, Ledger};
use crate::lower::{Pen, Scribe};
pub use crate::restrict::restrict;
use crate::rows;
use crate::text::{cat3, decimal, number};

verus! {

// ---------------------------------------------------------------------------
// The store
// ---------------------------------------------------------------------------

/// A path with a component appended: an absolute component stands by itself, and a
/// separator is put in where there is none.
pub open spec fn path_join(a: Seq<char>, b: Seq<char>) -> Seq<char> {
    if b.len() > 0 && b[0] == '/' {
        b
    } else if a.len() == 0 || a.last() == '/' {
        a + b
    } else {
        a + "/"@ + b
    }
}

fn join(a: &str, b: &str) -> (r: String)
    ensures
        r@ == path_join(a@, b@),
{
    let n: usize = a.unicode_len();
    if b.unicode_len() > 0 && b.get_char(0) == '/' {
        b.to_owned()
    } else if n == 0 || a.get_char(n - 1) == '/' {
        crate::text::cat(a, b)
    } else {
        cat3(a, "/", b)
    }
}

/// The store's root below the state directory: the one that is set, else the usual one
/// of the home directory, else the current directory.
pub open spec fn root_path(state: Option<String>, home: Option<String>) -> Seq<char> {
    path_join(
        match state {
            Some(s) => s@,
            None => match home {
                Some(h) => path_join(h@, ".local/state"@),
                None => "."@,
            },
        },
        "ctadl"@,
    )
}

/// Where the store is, given the state directory and the home directory as far as they
/// are set.
pub fn store_root(state: Option<String>, home: Option<String>) -> (r: String)
    ensures
        r@ == root_path(state, home),
{
    let base = match state {
        Some(s) => s,
        None => match home {
            Some(h) => join(h.as_str(), ".local/state"),
            None => ".".to_owned(),
        },
    };
    join(base.as_str(), "ctadl")
}

/// The directory of the import called `name` in the store at `root`.
pub fn import_dir(root: &str, name: &str) -> (r: String)
    ensures
        r@ == path_join(path_join(root@, "imports"@), name@),
{
    join(join(root, "imports").as_str(), name)
}

// ---------------------------------------------------------------------------
// Options
// ---------------------------------------------------------------------------

/// A pass over the representation before it is translated.
#[derive(Clone, Copy, Debug, PartialEq, Eq, Structural)]
pub enum Pass {
    DeadTemps,
    Coalesce,
    Ssa,
    CopyProp,
}

/// Which passes run between reading an import and translating it. They are chosen one by
/// one: single assignment grows the program, the others shrink it.
#[derive(Clone, Copy, Debug, PartialEq, Eq, Structural)]
pub struct Preprocess {
    /// Delete temporaries that are assigned and never read. Runs first: a dead temporary
    /// has no use to be fused into.
    pub dead_temps: bool,
    /// Fuse copies that are used once into their use.
    pub coalesce: bool,
    /// Give every variable versions, and joins where they meet.
    pub ssa: bool,
    /// Propagate the copies that are left. Runs last.
    pub copy_prop: bool,
}

impl Default for Preprocess {
    fn default() -> (r: Self)
        ensures
            r == (Preprocess { dead_temps: true, coalesce: true, ssa: true, copy_prop: true }),
    {
        Preprocess::ctadl()
    }
}

impl Preprocess {
    /// Every pass. The default.
    pub fn ctadl() -> (r: Self)
        ensures
            r == (Preprocess { dead_temps: true, coalesce: true, ssa: true, copy_prop: true }),
    {
        Preprocess { dead_temps: true, coalesce: true, ssa: true, copy_prop: true }
    }

    /// No pass: the representation as it was imported.
    pub fn none() -> (r: Self)
        ensures
            r == (Preprocess { dead_temps: false, coalesce: false, ssa: false, copy_prop: false }),
    {
        Preprocess { dead_temps: false, coalesce: false, ssa: false, copy_prop: false }
    }

    /// Single assignment alone.
    pub fn ssa_only() -> (r: Self)
        ensures
            r == (Preprocess { dead_temps: false, coalesce: false, ssa: true, copy_prop: false }),
    {
        Preprocess { dead_temps: false, coalesce: false, ssa: true, copy_prop: false }
    }

    /// The chosen passes in the order they run.
    pub open spec fn schedule(self) -> Seq<Pass> {
        (if self.dead_temps {
            seq![Pass::DeadTemps]
        } else {
            seq![]
        }) + (if self.coalesce {
            seq![Pass::Coalesce]
        } else {
            seq![]
        }) + (if self.ssa {
            seq![Pass::Ssa]
        } else {
            seq![]
        }) + (if self.copy_prop {
            seq![Pass::CopyProp]
        } else {
            seq![]
        })
    }

    /// The chosen passes in the order they run.
    pub fn plan(&self) -> (r: Vec<Pass>)
        ensures
            r@ == self.schedule(),
    {
        let mut r: Vec<Pass> = Vec::new();
        if self.dead_temps {
            r.push(Pass::DeadTemps);
        }
        if self.coalesce {
            r.push(Pass::Coalesce);
        }
        if self.ssa {
            r.push(Pass::Ssa);
        }
        if self.copy_prop {
            r.push(Pass::CopyProp);
        }
        proof {
            assert(r@ =~= self.schedule());
        }
        r
    }
}

#[derive(Clone, Copy, Debug, PartialEq, Eq, Structural)]
pub struct Options {
    /// Which passes run before the translation.
    pub preprocess: Preprocess,
    /// When the declared class at a virtual call is unknown to the hierarchy, fall back
    /// to every class that declares the method. Without it such a call resolves to
    /// nothing and its arguments flow nowhere.
    pub cha_fallback: bool,
    /// Name statements and variables by position rather than by the procedure they
    /// stand in.
    pub compact_names: bool,
}

impl Default for Options {
    fn default() -> (r: Self)
        ensures
            r.preprocess == (Preprocess {
                dead_temps: true,
                coalesce: true,
                ssa: true,
                copy_prop: true,
            }),
            r.cha_fallback,
            !r.compact_names,
    {
        Options { preprocess: Preprocess::ctadl(), cha_fallback: true, compact_names: false }
    }
}

// ---------------------------------------------------------------------------
// What an import adds to the notes
// ---------------------------------------------------------------------------

pub open spec fn noting(log: Seq<Entry>, kind: Kind, row: Seq<rows::Datum>) -> Seq<Entry> {
    log.push(Entry { kind, row })
}

/// The methods of a table with descriptors.
pub open spec fn declaring(log: Seq<Entry>, ms: Seq<(String, String, String, String)>) -> Seq<Entry>
    decreases ms.len(),
{
    if ms.len() == 0 {
        log
    } else {
        let m = ms.last();
        noting(
            declaring(log, ms.drop_last()),
            Kind::Declares,
            rows::four_row(m.0@, m.1@, m.2@, m.3@),
        )
    }
}

/// The methods of a table without: the descriptor is empty.
pub open spec fn tabling(log: Seq<Entry>, ms: Seq<(String, String, String)>) -> Seq<Entry>
    decreases ms.len(),
{
    if ms.len() == 0 {
        log
    } else {
        let m = ms.last();
        noting(
            tabling(log, ms.drop_last()),
            Kind::Declares,
            rows::four_row(m.0@, m.1@, Seq::empty(), m.2@),
        )
    }
}

/// What one class extends, in order.
pub open spec fn extending(log: Seq<Entry>, sub: Name, sups: Seq<String>) -> Seq<Entry>
    decreases sups.len(),
{
    if sups.len() == 0 {
        log
    } else {
        noting(
            extending(log, sub, sups.drop_last()),
            Kind::Extends,
            rows::two_row(sub, sups.last()@),
        )
    }
}

pub open spec fn inheriting(log: Seq<Entry>, hs: Seq<(String, Vec<String>)>) -> Seq<Entry>
    decreases hs.len(),
{
    if hs.len() == 0 {
        log
    } else {
        extending(inheriting(log, hs.drop_last()), hs.last().0@, hs.last().1@)
    }
}

/// A method table and hierarchy. Native code has neither: its indirect calls resolve
/// through the functions whose address is taken.
pub open spec fn classes(log: Seq<Entry>, vmt: VirtualMethodTable) -> Seq<Entry> {
    match vmt {
        VirtualMethodTable::Java { methods, hierarchy } => inheriting(
            declaring(log, methods@),
            hierarchy@,
        ),
        VirtualMethodTable::Lua { functions, hierarchy } => inheriting(
            tabling(log, functions@),
            hierarchy@,
        ),
        _ => log,
    }
}

/// What qualifies the names of function `i` of import `tag`.
pub open spec fn scope_of(f: FunctionData, compact: bool, tag: nat, i: nat) -> Name {
    if compact {
        decimal(tag) + ":"@ + decimal(i)
    } else {
        f.name@
    }
}

/// The functions in order. One without a body is a declaration: calls may name it, and it
/// has nothing to translate.
pub open spec fn code(pen: Pen, compact: bool, tag: nat, fs: Seq<FunctionData>) -> Pen
    decreases fs.len(),
{
    if fs.len() == 0 {
        pen
    } else {
        let before = code(pen, compact, tag, fs.drop_last());
        let f = fs.last();
        if f.blocks@.len() == 0 {
            before
        } else {
            before.function(f, scope_of(f, compact, tag, (fs.len() - 1) as nat))
        }
    }
}

/// A pen at no function yet.
pub open spec fn idle(log: Seq<Entry>) -> Pen {
    Pen {
        proc: Seq::empty(),
        scope: Seq::empty(),
        base: Seq::empty(),
        sub: 0,
        line: 0,
        log,
    }
}

/// The notes after an import.
pub open spec fn imported(
    log: Seq<Entry>,
    compact: bool,
    tag: nat,
    cir: CirProgram,
    vmt: VirtualMethodTable,
) -> Seq<Entry> {
    code(idle(classes(log, vmt)), compact, tag, cir.functions@).log
}

// ---------------------------------------------------------------------------
// What the notes say of a program
// ---------------------------------------------------------------------------

/// The program lists the facts of the notes: each relation in order and each tuple once,
/// the statements in the order they were placed.
pub open spec fn translates(prog: Program, log: Seq<Entry>, fallback: bool) -> bool {
    &&& rows::lists(rows::one_rows(prog.procedure@), ledger::relation(log, Kind::Procedure))
    &&& rows::lists(rows::two_rows(prog.proc_type@), ledger::relation(log, Kind::ProcType))
    &&& rows::lists(rows::three_rows(prog.alloc@), ledger::relation(log, Kind::Alloc))
    &&& rows::lists(rows::two_rows(prog.alloc_type@), ledger::relation(log, Kind::AllocType))
    &&& rows::lists(rows::three_rows(prog.const_assign@), ledger::relation(log, Kind::ConstAssign))
    &&& rows::lists(rows::three_rows(prog.mov@), ledger::relation(log, Kind::Mov))
    &&& rows::lists(rows::four_rows(prog.load_field@), ledger::relation(log, Kind::LoadField))
    &&& rows::lists(rows::four_rows(prog.store_field@), ledger::relation(log, Kind::StoreField))
    &&& rows::lists(rows::four_rows(prog.load_static@), ledger::relation(log, Kind::LoadStatic))
    &&& rows::lists(rows::four_rows(prog.store_static@), ledger::relation(log, Kind::StoreStatic))
    &&& rows::lists(rows::four_rows(prog.load_index_const@),
        ledger::relation(log, Kind::LoadIndexConst))
    &&& rows::lists(rows::four_rows(prog.store_index_const@),
        ledger::relation(log, Kind::StoreIndexConst))
    &&& rows::lists(rows::two_rows(prog.direct_call@), ledger::relation(log, Kind::DirectCall))
    &&& rows::lists(rows::three_rows(prog.virtual_call@), ledger::relation(log, Kind::VirtualCall))
    &&& rows::lists(rows::indexed_rows(prog.actual_arg@), ledger::relation(log, Kind::ActualArg))
    &&& rows::lists(rows::two_rows(prog.bind_ret@), ledger::relation(log, Kind::BindRet))
    &&& rows::lists(rows::indexed_rows(prog.formal@), ledger::relation(log, Kind::Formal))
    &&& rows::lists(rows::two_rows(prog.ret@), ledger::relation(log, Kind::Ret))
    &&& rows::lists(rows::two_rows(prog.direct_subtype@), ledger::relation(log, Kind::Extends))
    &&& rows::lists(rows::two_rows(prog.proc_sig@), dispatch::proc_sig(log, fallback))
    &&& rows::lists(rows::one_rows(prog.entry@), dispatch::entry(log, fallback))
    &&& rows::lists(rows::three_rows(prog.lookup@), dispatch::lookup(log, fallback))
    &&& rows::placed_rows(prog.in_proc@) == ledger::noted(log, Kind::InProc)
    &&& prog.load_index_var@.len() == 0
    &&& prog.store_index_var@.len() == 0
    &&& prog.paths@.len() == 0
}

// ---------------------------------------------------------------------------
// The translator
// ---------------------------------------------------------------------------

fn add_methods(ledger: &mut Ledger, ms: &Vec<(String, String, String, String)>)
    requires
        ledger::shapely(old(ledger)@),
    ensures
        ledger::shapely(final(ledger)@),
        final(ledger)@ == declaring(old(ledger)@, ms@),
{
    let ghost start = ledger@;
    let mut i: usize = 0;
    while i < ms.len()
        invariant
            i <= ms@.len(),
            ledger::shapely(ledger@),
            ledger@ == declaring(start, ms@.take(i as int)),
        decreases ms@.len() - i,
    {
        proof {
            assert(ms@.take(i + 1).drop_last() =~= ms@.take(i as int));
            assert(ms@.take(i + 1).last() == ms@[i as int]);
        }
        ledger.note_four(
            Kind::Declares,
            ms[i].0.as_str(),
            ms[i].1.as_str(),
            ms[i].2.as_str(),
            ms[i].3.as_str(),
        );
        i += 1;
    }
    proof {
        assert(ms@.take(i as int) =~= ms@);
    }
}

fn add_tables(ledger: &mut Ledger, ms: &Vec<(String, String, String)>)
    requires
        ledger::shapely(old(ledger)@),
    ensures
        ledger::shapely(final(ledger)@),
        final(ledger)@ == tabling(old(ledger)@, ms@),
{
    let ghost start = ledger@;
    let none = String::new();
    let mut i: usize = 0;
    while i < ms.len()
        invariant
            i <= ms@.len(),
            none@ == Seq::<char>::empty(),
            ledger::shapely(ledger@),
            ledger@ == tabling(start, ms@.take(i as int)),
        decreases ms@.len() - i,
    {
        proof {
            assert(ms@.take(i + 1).drop_last() =~= ms@.take(i as int));
            assert(ms@.take(i + 1).last() == ms@[i as int]);
        }
        ledger.note_four(
            Kind::Declares,
            ms[i].0.as_str(),
            ms[i].1.as_str(),
            none.as_str(),
            ms[i].2.as_str(),
        );
        i += 1;
    }
    proof {
        assert(ms@.take(i as int) =~= ms@);
    }
}

fn add_supers(ledger: &mut Ledger, sub: &String, sups: &Vec<String>)
    requires
        ledger::shapely(old(ledger)@),
    ensures
        ledger::shapely(final(ledger)@),
        final(ledger)@ == extending(old(ledger)@, sub@, sups@),
{
    let ghost start = ledger@;
    let mut i: usize = 0;
    while i < sups.len()
        invariant
            i <= sups@.len(),
            ledger::shapely(ledger@),
            ledger@ == extending(start, sub@, sups@.take(i as int)),
        decreases sups@.len() - i,
    {
        proof {
            assert(sups@.take(i + 1).drop_last() =~= sups@.take(i as int));
            assert(sups@.take(i + 1).last() == sups@[i as int]);
        }
        ledger.note_two(Kind::Extends, sub.as_str(), sups[i].as_str());
        i += 1;
    }
    proof {
        assert(sups@.take(i as int) =~= sups@);
    }
}

fn add_hierarchy(ledger: &mut Ledger, hs: &Vec<(String, Vec<String>)>)
    requires
        ledger::shapely(old(ledger)@),
    ensures
        ledger::shapely(final(ledger)@),
        final(ledger)@ == inheriting(old(ledger)@, hs@),
{
    let ghost start = ledger@;
    let mut i: usize = 0;
    while i < hs.len()
        invariant
            i <= hs@.len(),
            ledger::shapely(ledger@),
            ledger@ == inheriting(start, hs@.take(i as int)),
        decreases hs@.len() - i,
    {
        proof {
            assert(hs@.take(i + 1).drop_last() =~= hs@.take(i as int));
            assert(hs@.take(i + 1).last() == hs@[i as int]);
        }
        add_supers(ledger, &hs[i].0, &hs[i].1);
        i += 1;
    }
    proof {
        assert(hs@.take(i as int) =~= hs@);
    }
}

fn add_vmt(ledger: &mut Ledger, vmt: &VirtualMethodTable)
    requires
        ledger::shapely(old(ledger)@),
    ensures
        ledger::shapely(final(ledger)@),
        final(ledger)@ == classes(old(ledger)@, *vmt),
{
    match vmt {
        VirtualMethodTable::Java { methods, hierarchy } => {
            add_methods(ledger, methods);
            add_hierarchy(ledger, hierarchy);
        },
        VirtualMethodTable::Lua { functions, hierarchy } => {
            add_tables(ledger, functions);
            add_hierarchy(ledger, hierarchy);
        },
        VirtualMethodTable::Native => {},
        VirtualMethodTable::Unknown => {},
    }
}

/// Gathers the facts of one or more imports.
pub struct Translator {
    opts: Options,
    imports: usize,
    ledger: Ledger,
}

impl Translator {
    pub closed spec fn opts(&self) -> Options {
        self.opts
    }

    /// How many imports it has.
    pub closed spec fn imports(&self) -> nat {
        self.imports as nat
    }

    /// What it has noted so far.
    pub closed spec fn notes(&self) -> Seq<Entry> {
        self.ledger@
    }

    pub open spec fn wf(&self) -> bool {
        ledger::shapely(self.notes())
    }

    pub fn new(opts: Options) -> (r: Self)
        ensures
            r.wf(),
            r.opts() == opts,
            r.imports() == 0,
            r.notes() == Seq::<Entry>::empty(),
    {
        Translator { opts, imports: 0, ledger: Ledger::new() }
    }

    /// Translate one import, whose passes have run, and merge it into what is here.
    pub fn add_import(&mut self, cir: CirProgram, vmt: &VirtualMethodTable)
        requires
            old(self).wf(),
            old(self).imports() < usize::MAX,
        ensures
            final(self).wf(),
            final(self).opts() == old(self).opts(),
            final(self).imports() == old(self).imports() + 1,
            final(self).notes() == imported(
                old(self).notes(),
                old(self).opts().compact_names,
                old(self).imports(),
                cir,
                *vmt,
            ),
    {
        let compact = self.opts.compact_names;
        let tag: usize = self.imports;
        let mut ledger = Ledger::new();
        std::mem::swap(&mut ledger, &mut self.ledger);
        add_vmt(&mut ledger, vmt);
        let ghost start = idle(ledger@);
        let mut scribe = Scribe::new(ledger);
        proof {
            assert(scribe@ =~= start);
        }
        let fs = &cir.functions;
        let mut i: usize = 0;
        while i < fs.len()
            invariant
                i <= fs@.len(),
                scribe.wf(),
                scribe@ == code(start, compact, tag as nat, fs@.take(i as int)),
            decreases fs@.len() - i,
        {
            proof {
                assert(fs@.take(i + 1).drop_last() =~= fs@.take(i as int));
                assert(fs@.take(i + 1).last() == fs@[i as int]);
            }
            if fs[i].blocks.len() > 0 {
                let scope = if compact {
                    cat3(number(tag).as_str(), ":", number(i).as_str())
                } else {
                    fs[i].name.clone()
                };
                scribe.add_function(&fs[i], scope);
            }
            i += 1;
        }
        proof {
            assert(fs@.take(i as int) =~= fs@);
        }
        self.ledger = scribe.done();
        self.imports = tag + 1;
    }

    /// The program of everything that was imported: dispatch is worked out over the
    /// merged hierarchy, and the entries are found.
    pub fn finish(self) -> (r: Program)
        requires
            self.wf(),
        ensures
            translates(r, self.notes(), self.opts().cha_fallback),
    {
        let ghost log = self.notes();
        let ghost fallback = self.opts().cha_fallback;
        let found = dispatch::lookups(&self.ledger, self.opts.cha_fallback);
        let sigs = dispatch::proc_sigs(&found, Ghost(log), Ghost(fallback));
        let roots = dispatch::entries(&self.ledger, &found, Ghost(fallback));
        Program {
            procedure: rows::one_relation(&self.ledger.relation(Kind::Procedure)),
            proc_type: rows::two_relation(&self.ledger.relation(Kind::ProcType)),
            alloc: rows::three_relation(&self.ledger.relation(Kind::Alloc)),
            alloc_type: rows::two_relation(&self.ledger.relation(Kind::AllocType)),
            const_assign: rows::three_relation(&self.ledger.relation(Kind::ConstAssign)),
            mov: rows::three_relation(&self.ledger.relation(Kind::Mov)),
            load_field: rows::four_relation(&self.ledger.relation(Kind::LoadField)),
            store_field: rows::four_relation(&self.ledger.relation(Kind::StoreField)),
            load_static: rows::four_relation(&self.ledger.relation(Kind::LoadStatic)),
            store_static: rows::four_relation(&self.ledger.relation(Kind::StoreStatic)),
            load_index_const: rows::four_relation(&self.ledger.relation(Kind::LoadIndexConst)),
            store_index_const: rows::four_relation(&self.ledger.relation(Kind::StoreIndexConst)),
            direct_call: rows::two_relation(&self.ledger.relation(Kind::DirectCall)),
            virtual_call: rows::three_relation(&self.ledger.relation(Kind::VirtualCall)),
            actual_arg: rows::indexed_relation(&self.ledger.relation(Kind::ActualArg)),
            bind_ret: rows::two_relation(&self.ledger.relation(Kind::BindRet)),
            formal: rows::indexed_relation(&self.ledger.relation(Kind::Formal)),
            ret: rows::two_relation(&self.ledger.relation(Kind::Ret)),
            direct_subtype: rows::two_relation(&self.ledger.relation(Kind::Extends)),
            in_proc: rows::placed_relation(&self.ledger.rows(Kind::InProc)),
            proc_sig: rows::two_relation(&sigs),
            entry: rows::one_relation(&roots),
            lookup: rows::three_relation(&found),
            load_index_var: Vec::new(),
            store_index_var: Vec::new(),
            paths: Vec::new(),
        }
    }
}

/// Translate one import, the common case.
pub fn import_edb(cir: CirProgram, vmt: &VirtualMethodTable, opts: Options) -> (r: Program)
    ensures
        translates(r, imported(Seq::empty(), opts.compact_names, 0, cir, *vmt), opts.cha_fallback),
{
    let mut t = Translator::new(opts);
    t.add_import(cir, vmt);
    t.finish()
}

} // verus!
