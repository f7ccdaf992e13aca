//! Access paths and summary constraints.
//!
//! An abstract state is a set of set constraints over *access paths*, a root
//! followed by accessors:
//!
//! ```text
//! w >= w'        w >= {l}        w >= {c}
//! ```
//!
//! A procedure's summary *is* the set of new constraints it adds to any
//! precondition. In a finished summary the paths are rooted at the *symbolic
//! variables* the analysis introduces per procedure: `par_i@p` for the `i`-th
//! formal and `ret@p` for the return value. While a procedure is still being
//! summarized, paths may also be rooted at its locals; those are eliminated
//! before the summary is published.
use vstd::prelude::*;
use vstd::string::*;

use crate::ir::{Alloc, ArgIdx, Const, Field, Name, Proc, Stmt, Symbol, Var};
use crate::text;

verus! {

// ---------------------------------------------------------------------------
// The mathematical models
// ---------------------------------------------------------------------------

/// A pending critical statement: the statement, and the callsites it has been
/// propagated through, innermost first.
#[verifier::ext_equal]
pub struct Instance {
    pub stmt: Name,
    pub chain: Seq<Name>,
}

/// The root of an access path.
pub enum Root {
    Var(Name),
    Param(Name, ArgIdx),
    Ret(Name),
    Slot(Instance, ArgIdx),
    Res(Instance),
}

/// One accessor.
pub enum Step {
    Field(Name),
    Index(Name),
    Unknown,
}

/// An access path: a root and the accessors hung off it.
#[verifier::ext_equal]
pub struct Path {
    pub root: Root,
    pub steps: Seq<Step>,
}

/// An element of a points-to set.
pub enum Value {
    Path(Path),
    Alloc(Name),
    Const(Name),
}

/// A set constraint: `sup` contains `sub`.
#[verifier::ext_equal]
pub struct Inclusion {
    pub sup: Path,
    pub sub: Value,
}

impl Instance {
    /// The instance of `s` where it occurs, not yet propagated.
    pub open spec fn origin(s: Name) -> Instance {
        Instance { stmt: s, chain: Seq::empty() }
    }

    /// One callsite further out.
    pub open spec fn push(self, site: Name) -> Instance {
        Instance { stmt: self.stmt, chain: self.chain.push(site) }
    }

    /// Renamed into the holder of `outer`: the callsite crossed is `outer`'s
    /// statement, and `outer`'s own chain follows.
    pub open spec fn nest(self, outer: Instance) -> Instance {
        Instance { stmt: self.stmt, chain: self.chain.push(outer.stmt) + outer.chain }
    }

    pub open spec fn depth(self) -> nat {
        self.chain.len()
    }

    pub open spec fn show(self) -> Seq<char> {
        "\u{27e8}"@ + self.stmt + show_chain(self.chain) + "\u{27e9}"@
    }
}

/// A call string: `@` before the first site, a dot before each later one.
pub open spec fn show_chain(chain: Seq<Name>) -> Seq<char>
    decreases chain.len(),
{
    if chain.len() == 0 {
        Seq::empty()
    } else {
        show_chain(chain.drop_last()) + (if chain.len() == 1 {
            "@"@
        } else {
            "\u{b7}"@
        }) + chain.last()
    }
}

impl Root {
    /// Everything except a local.
    pub open spec fn is_symbolic(self) -> bool {
        !(self is Var)
    }

    /// The pending instance this root belongs to.
    pub open spec fn instance(self) -> Option<Instance> {
        match self {
            Root::Slot(id, _) => Some(id),
            Root::Res(id) => Some(id),
            _ => None,
        }
    }

    pub open spec fn show(self) -> Seq<char> {
        match self {
            Root::Var(v) => v,
            Root::Param(p, i) => "par_"@ + text::decimal(i as nat) + "@"@ + p,
            Root::Ret(p) => "ret@"@ + p,
            Root::Slot(id, i) => id.show() + ":arg"@ + text::decimal(i as nat),
            Root::Res(id) => id.show() + ":res"@,
        }
    }
}

impl Step {
    pub open spec fn show(self) -> Seq<char> {
        match self {
            Step::Field(f) => "."@ + f,
            Step::Index(c) => "["@ + c + "]"@,
            Step::Unknown => "[\u{3c0}]"@,
        }
    }
}

/// Accessors one after the other.
pub open spec fn show_steps(steps: Seq<Step>) -> Seq<char>
    decreases steps.len(),
{
    if steps.len() == 0 {
        Seq::empty()
    } else {
        show_steps(steps.drop_last()) + steps.last().show()
    }
}

/// A suffix on its own: the empty one has a symbol of its own.
pub open spec fn show_suffix(steps: Seq<Step>) -> Seq<char> {
    if steps.len() == 0 {
        "\u{3b5}"@
    } else {
        show_steps(steps)
    }
}

impl Path {
    /// The bare path of a root.
    pub open spec fn bare(root: Root) -> Path {
        Path { root, steps: Seq::empty() }
    }

    pub open spec fn var(v: Name) -> Path {
        Path::bare(Root::Var(v))
    }

    pub open spec fn param(p: Name, i: ArgIdx) -> Path {
        Path::bare(Root::Param(p, i))
    }

    pub open spec fn ret(p: Name) -> Path {
        Path::bare(Root::Ret(p))
    }

    pub open spec fn slot(id: Instance, i: ArgIdx) -> Path {
        Path::bare(Root::Slot(id, i))
    }

    pub open spec fn res(id: Instance) -> Path {
        Path::bare(Root::Res(id))
    }

    /// One accessor longer.
    pub open spec fn then_step(self, a: Step) -> Path {
        Path { root: self.root, steps: self.steps.push(a) }
    }

    /// The same suffix off another root.
    pub open spec fn rebase(self, root: Root) -> Path {
        Path { root, steps: self.steps }
    }

    /// The same root with another suffix.
    pub open spec fn with_steps(self, steps: Seq<Step>) -> Path {
        Path { root: self.root, steps }
    }

    /// `self` is `prefix` followed by more accessors, or by none.
    pub open spec fn extends(self, prefix: Path) -> bool {
        self.root == prefix.root && prefix.steps.is_prefix_of(self.steps)
    }

    pub open spec fn show(self) -> Seq<char> {
        self.root.show() + show_steps(self.steps)
    }
}

impl Value {
    pub open spec fn show(self) -> Seq<char> {
        match self {
            Value::Path(w) => w.show(),
            Value::Alloc(l) => "{"@ + l + "}"@,
            Value::Const(c) => "{"@ + c + "}"@,
        }
    }
}

impl Inclusion {
    pub open spec fn show(self) -> Seq<char> {
        self.sup.show() + " \u{2287} "@ + self.sub.show()
    }
}

/// Symbols by their text.
pub open spec fn names<S: Symbol>(v: Seq<S>) -> Seq<Name> {
    Seq::new(v.len(), |i: int| v[i]@)
}

/// Accessors by their models.
pub open spec fn steps(v: Seq<Accessor>) -> Seq<Step> {
    Seq::new(v.len(), |i: int| v[i]@)
}

// ---------------------------------------------------------------------------
// Pending critical statements
// ---------------------------------------------------------------------------

/// The identity of a *pending critical statement*, one that has been kept as a
/// placeholder in a hybrid summary instead of being summarized under top.
///
/// Propagating a hybrid summary into a caller renames the placeholder, so an
/// instance needs an identity *per holder*: the original statement plus the
/// chain of callsites it has been propagated through. That chain is a call
/// string, and bounding its length is the k-limit.
#[derive(Debug, Eq, PartialOrd, Ord, Hash)]
pub struct CritId {
    /// The critical statement itself.
    pub stmt: Stmt,
    /// Callsites the instance has been propagated through, innermost first.
    pub chain: Vec<Stmt>,
}

impl View for CritId {
    type V = Instance;

    open spec fn view(&self) -> Instance {
        Instance { stmt: self.stmt@, chain: names(self.chain@) }
    }
}

/// A copy of a list of statements.
pub fn copy_stmts(v: &Vec<Stmt>) -> (r: Vec<Stmt>)
    ensures
        r@ == v@,
{
    let mut r: Vec<Stmt> = Vec::new();
    let mut i: usize = 0;
    while i < v.len()
        invariant
            i <= v@.len(),
            r@ == v@.take(i as int),
        decreases v@.len() - i,
    {
        r.push(v[i].clone());
        proof {
            assert(v@.take(i + 1) =~= v@.take(i as int).push(v@[i as int]));
        }
        i += 1;
    }
    proof {
        assert(v@.take(i as int) =~= v@);
    }
    r
}

impl Clone for CritId {
    fn clone(&self) -> (r: Self)
        ensures
            r@ == self@,
    {
        CritId { stmt: self.stmt.clone(), chain: copy_stmts(&self.chain) }
    }
}

impl PartialEq for CritId {
    fn eq(&self, other: &Self) -> (r: bool) {
        if self.stmt != other.stmt || self.chain.len() != other.chain.len() {
            proof {
                assert(names(self.chain@).len() == self.chain@.len());
                assert(names(other.chain@).len() == other.chain@.len());
            }
            return false;
        }
        let mut i: usize = 0;
        while i < self.chain.len()
            invariant
                i <= self.chain@.len() == other.chain@.len(),
                forall|j: int| 0 <= j < i ==> self.chain@[j]@ == other.chain@[j]@,
            decreases self.chain@.len() - i,
        {
            if self.chain[i] != other.chain[i] {
                proof {
                    assert(names(self.chain@)[i as int] != names(other.chain@)[i as int]);
                }
                return false;
            }
            i += 1;
        }
        proof {
            assert(names(self.chain@) =~= names(other.chain@));
        }
        true
    }
}

impl vstd::std_specs::cmp::PartialEqSpecImpl for CritId {
    open spec fn obeys_eq_spec() -> bool {
        true
    }

    open spec fn eq_spec(&self, other: &Self) -> bool {
        self@ == other@
    }
}

impl CritId {
    /// The instance as it originates, in the procedure that syntactically
    /// contains the critical statement.
    pub fn origin<S: Into<Stmt>>(stmt: S) -> (r: Self)
        ensures
            call_ensures(S::into, (stmt,), r.stmt),
            r@ == Instance::origin(r.stmt@),
    {
        let r = CritId { stmt: stmt.into(), chain: Vec::new() };
        proof {
            assert(r@.chain =~= Seq::<Name>::empty());
        }
        r
    }

    /// Propagate one level out: the holder is inlined at callsite `site` in
    /// some caller, so the instance becomes a pending of that caller.
    pub fn push(&self, site: &Stmt) -> (r: Self)
        ensures
            r@ == self@.push(site@),
    {
        let mut chain = copy_stmts(&self.chain);
        chain.push(site.clone());
        let r = CritId { stmt: self.stmt.clone(), chain };
        proof {
            assert(r@.chain =~= self@.chain.push(site@));
        }
        r
    }

    /// Rename a callee's own pending `self` into the holder of the critical
    /// statement `outer` it is being inlined at: the callsite crossed is
    /// `outer.stmt`, and `outer`'s own chain follows.
    pub fn nest(&self, outer: &CritId) -> (r: Self)
        ensures
            r@ == self@.nest(outer@),
    {
        let mut chain = copy_stmts(&self.chain);
        chain.push(outer.stmt.clone());
        let ghost head = chain@;
        let mut i: usize = 0;
        while i < outer.chain.len()
            invariant
                i <= outer.chain@.len(),
                chain@ == head + outer.chain@.take(i as int),
            decreases outer.chain@.len() - i,
        {
            chain.push(outer.chain[i].clone());
            proof {
                assert(outer.chain@.take(i + 1) =~= outer.chain@.take(i as int).push(
                    outer.chain@[i as int],
                ));
                assert(chain@ =~= head + outer.chain@.take(i + 1));
            }
            i += 1;
        }
        let r = CritId { stmt: self.stmt.clone(), chain };
        proof {
            assert(outer.chain@.take(i as int) =~= outer.chain@);
            assert(r@.chain =~= self@.nest(outer@).chain);
        }
        r
    }

    /// How far this instance has been propagated: the value the k-limit bounds.
    pub fn depth(&self) -> (r: usize)
        ensures
            r == self@.depth(),
    {
        self.chain.len()
    }

    /// The depth [`CritId::nest`] would produce, without building it.
    pub fn nest_depth(&self, outer: &CritId) -> (r: usize)
        requires
            self@.depth() + 1 + outer@.depth() <= usize::MAX,
        ensures
            r == self@.nest(outer@).depth(),
    {
        self.chain.len() + 1 + outer.chain.len()
    }

    /// The instance as it is reported: the statement, then its call string.
    pub fn to_string(&self) -> (r: String)
        ensures
            r@ == self@.show(),
    {
        let mut r = text::cat("\u{27e8}", self.stmt.as_ref());
        let ghost start = r@;
        let mut i: usize = 0;
        while i < self.chain.len()
            invariant
                i <= self.chain@.len(),
                start == "\u{27e8}"@ + self@.stmt,
                r@ == start + show_chain(self@.chain.take(i as int)),
            decreases self.chain@.len() - i,
        {
            proof {
                let t = self@.chain.take(i + 1);
                assert(t.drop_last() =~= self@.chain.take(i as int));
                assert(t.last() == self.chain@[i as int]@);
            }
            if i == 0 {
                r.append("@");
            } else {
                r.append("\u{b7}");
            }
            r.append(self.chain[i].as_ref());
            proof {
                assert(r@ =~= start + show_chain(self@.chain.take(i + 1)));
            }
            i += 1;
        }
        r.append("\u{27e9}");
        proof {
            assert(self@.chain.take(i as int) =~= self@.chain);
            assert(r@ =~= self@.show());
        }
        r
    }
}

// ---------------------------------------------------------------------------
// Roots
// ---------------------------------------------------------------------------

/// The root of an access path: a program variable, one of the symbolic
/// variables the analysis invents to stand for values that flow into or out of
/// a procedure, or one of the placeholder nodes of a pending critical statement.
#[derive(Debug, Eq, PartialOrd, Ord, Hash)]
pub enum Base {
    /// A local of the procedure being summarized. Eliminated before the summary
    /// is published, so never seen by a caller.
    Var(Var),
    /// `par_i@p`: whatever the caller passes as `p`'s `i`-th argument.
    Param(Proc, ArgIdx),
    /// `ret@p`: `p`'s return value.
    Ret(Proc),
    /// The `i`-th operand of a pending critical statement.
    CritSlot(CritId, ArgIdx),
    /// The result of a pending critical statement.
    CritRet(CritId),
}

impl View for Base {
    type V = Root;

    open spec fn view(&self) -> Root {
        match self {
            Base::Var(v) => Root::Var(v@),
            Base::Param(p, i) => Root::Param(p@, *i),
            Base::Ret(p) => Root::Ret(p@),
            Base::CritSlot(id, i) => Root::Slot(id@, *i),
            Base::CritRet(id) => Root::Res(id@),
        }
    }
}

impl Clone for Base {
    fn clone(&self) -> (r: Self)
        ensures
            r@ == self@,
    {
        match self {
            Base::Var(v) => Base::Var(v.clone()),
            Base::Param(p, i) => Base::Param(p.clone(), *i),
            Base::Ret(p) => Base::Ret(p.clone()),
            Base::CritSlot(id, i) => Base::CritSlot(id.clone(), *i),
            Base::CritRet(id) => Base::CritRet(id.clone()),
        }
    }
}

impl PartialEq for Base {
    fn eq(&self, other: &Self) -> (r: bool) {
        match (self, other) {
            (Base::Var(a), Base::Var(b)) => *a == *b,
            (Base::Param(a, i), Base::Param(b, j)) => *i == *j && *a == *b,
            (Base::Ret(a), Base::Ret(b)) => *a == *b,
            (Base::CritSlot(a, i), Base::CritSlot(b, j)) => *i == *j && *a == *b,
            (Base::CritRet(a), Base::CritRet(b)) => *a == *b,
            _ => false,
        }
    }
}

impl vstd::std_specs::cmp::PartialEqSpecImpl for Base {
    open spec fn obeys_eq_spec() -> bool {
        true
    }

    open spec fn eq_spec(&self, other: &Self) -> bool {
        self@ == other@
    }
}

impl From<Var> for Base {
    fn from(v: Var) -> (r: Self) {
        Base::Var(v)
    }
}

impl vstd::std_specs::convert::FromSpecImpl<Var> for Base {
    open spec fn obeys_from_spec() -> bool {
        true
    }

    open spec fn from_spec(v: Var) -> Self {
        Base::Var(v)
    }
}

impl Base {
    /// True for the symbolic roots, everything except a local. Only symbolic
    /// roots survive into a published summary.
    pub fn is_symbolic(&self) -> (r: bool)
        ensures
            r == self@.is_symbolic(),
    {
        match self {
            Base::Var(_) => false,
            _ => true,
        }
    }

    /// The pending instance this root belongs to, if any.
    pub fn crit_id(&self) -> (r: Option<&CritId>)
        ensures
            match r {
                Some(id) => self@.instance() == Some(id@),
                None => self@.instance() is None,
            },
    {
        match self {
            Base::CritSlot(id, _) => Some(id),
            Base::CritRet(id) => Some(id),
            _ => None,
        }
    }

    pub fn to_string(&self) -> (r: String)
        ensures
            r@ == self@.show(),
    {
        match self {
            Base::Var(v) => v.to_string(),
            Base::Param(p, i) => {
                let mut r = text::numbered("par_", *i);
                r.append("@");
                r.append(p.as_ref());
                r
            },
            Base::Ret(p) => text::cat("ret@", p.as_ref()),
            Base::CritSlot(id, i) => {
                let mut r = id.to_string();
                r.append(":arg");
                r.append(text::number(*i).as_str());
                r
            },
            Base::CritRet(id) => text::cat(id.to_string().as_str(), ":res"),
        }
    }
}

// ---------------------------------------------------------------------------
// Accessors and suffixes
// ---------------------------------------------------------------------------

/// One step of an access path's suffix.
#[derive(Debug, Eq, PartialOrd, Ord, Hash)]
pub enum Accessor {
    /// `.f`
    Field(Field),
    /// `[c]`
    Index(Const),
    /// An index the analysis cannot decide under the current context.
    IndexUnknown,
}

impl View for Accessor {
    type V = Step;

    open spec fn view(&self) -> Step {
        match self {
            Accessor::Field(f) => Step::Field(f@),
            Accessor::Index(c) => Step::Index(c@),
            Accessor::IndexUnknown => Step::Unknown,
        }
    }
}

impl Clone for Accessor {
    fn clone(&self) -> (r: Self)
        ensures
            r == *self,
    {
        match self {
            Accessor::Field(f) => Accessor::Field(f.clone()),
            Accessor::Index(c) => Accessor::Index(c.clone()),
            Accessor::IndexUnknown => Accessor::IndexUnknown,
        }
    }
}

impl PartialEq for Accessor {
    fn eq(&self, other: &Self) -> (r: bool) {
        match (self, other) {
            (Accessor::Field(a), Accessor::Field(b)) => *a == *b,
            (Accessor::Index(a), Accessor::Index(b)) => *a == *b,
            (Accessor::IndexUnknown, Accessor::IndexUnknown) => true,
            _ => false,
        }
    }
}

impl vstd::std_specs::cmp::PartialEqSpecImpl for Accessor {
    open spec fn obeys_eq_spec() -> bool {
        true
    }

    open spec fn eq_spec(&self, other: &Self) -> bool {
        self@ == other@
    }
}

impl Accessor {
    pub fn to_string(&self) -> (r: String)
        ensures
            r@ == self@.show(),
    {
        match self {
            Accessor::Field(f) => text::cat(".", f.as_ref()),
            Accessor::Index(c) => text::cat3("[", c.as_ref(), "]"),
            Accessor::IndexUnknown => "[\u{3c0}]".to_owned(),
        }
    }
}

/// A copy of a list of accessors.
pub fn copy_accessors(v: &[Accessor]) -> (r: Vec<Accessor>)
    ensures
        r@ == v@,
{
    let mut r: Vec<Accessor> = Vec::new();
    push_accessors(&mut r, v);
    proof {
        assert(r@ =~= v@);
    }
    r
}

/// `v` appended to `out`.
pub fn push_accessors(out: &mut Vec<Accessor>, v: &[Accessor])
    ensures
        final(out)@ == old(out)@ + v@,
{
    let ghost start = out@;
    let mut i: usize = 0;
    while i < v.len()
        invariant
            i <= v@.len(),
            out@ == start + v@.take(i as int),
        decreases v@.len() - i,
    {
        out.push(v[i].clone());
        proof {
            assert(v@.take(i + 1) =~= v@.take(i as int).push(v@[i as int]));
            assert(out@ =~= start + v@.take(i + 1));
        }
        i += 1;
    }
    proof {
        assert(v@.take(i as int) =~= v@);
    }
}

/// Whether `a` and `b` hold the same accessors in the same order.
pub fn same_accessors(a: &[Accessor], b: &[Accessor]) -> (r: bool)
    ensures
        r == (steps(a@) == steps(b@)),
{
    if a.len() != b.len() {
        proof {
            assert(steps(a@).len() == a@.len());
            assert(steps(b@).len() == b@.len());
        }
        return false;
    }
    let mut i: usize = 0;
    while i < a.len()
        invariant
            i <= a@.len() == b@.len(),
            forall|j: int| 0 <= j < i ==> a@[j]@ == b@[j]@,
        decreases a@.len() - i,
    {
        if a[i] != b[i] {
            proof {
                assert(steps(a@)[i as int] != steps(b@)[i as int]);
            }
            return false;
        }
        i += 1;
    }
    proof {
        assert(steps(a@) =~= steps(b@));
    }
    true
}

/// The accessors as they are shown, one after the other, appended to `out`.
pub fn show_accessors(out: &mut String, v: &[Accessor])
    ensures
        final(out)@ == old(out)@ + show_steps(steps(v@)),
{
    let ghost start = out@;
    let mut i: usize = 0;
    proof {
        assert(start + show_steps(steps(v@).take(0)) =~= start);
    }
    while i < v.len()
        invariant
            i <= v@.len(),
            out@ == start + show_steps(steps(v@).take(i as int)),
        decreases v@.len() - i,
    {
        out.append(v[i].to_string().as_str());
        proof {
            let t = steps(v@).take(i + 1);
            assert(t.drop_last() =~= steps(v@).take(i as int));
            assert(t.last() == v@[i as int]@);
            assert(out@ =~= start + show_steps(t));
        }
        i += 1;
    }
    proof {
        assert(steps(v@).take(i as int) =~= steps(v@));
    }
}

/// An access path's *suffix*: the accessor sequence, with no root.
///
/// This is what the bound on access paths ranges over. A whole path cannot be
/// enumerated ahead of the analysis, but a suffix can, and the suffix is the
/// only part of a path that ever grows.
#[derive(Debug, Eq, PartialOrd, Ord, Hash)]
pub struct Suffix(pub Vec<Accessor>);

impl View for Suffix {
    type V = Seq<Step>;

    open spec fn view(&self) -> Seq<Step> {
        steps(self.0@)
    }
}

impl Clone for Suffix {
    fn clone(&self) -> (r: Self)
        ensures
            r@ == self@,
    {
        Suffix(copy_accessors(self.0.as_slice()))
    }
}

impl PartialEq for Suffix {
    fn eq(&self, other: &Self) -> (r: bool) {
        same_accessors(self.0.as_slice(), other.0.as_slice())
    }
}

impl vstd::std_specs::cmp::PartialEqSpecImpl for Suffix {
    open spec fn obeys_eq_spec() -> bool {
        true
    }

    open spec fn eq_spec(&self, other: &Self) -> bool {
        self@ == other@
    }
}

impl Default for Suffix {
    fn default() -> (r: Self)
        ensures
            r@ == Seq::<Step>::empty(),
    {
        Suffix::empty()
    }
}

impl From<Vec<Accessor>> for Suffix {
    fn from(v: Vec<Accessor>) -> (r: Self) {
        Suffix(v)
    }
}

impl vstd::std_specs::convert::FromSpecImpl<Vec<Accessor>> for Suffix {
    open spec fn obeys_from_spec() -> bool {
        true
    }

    open spec fn from_spec(v: Vec<Accessor>) -> Self {
        Suffix(v)
    }
}

impl Suffix {
    /// The empty suffix, the suffix of a bare root.
    pub fn empty() -> (r: Self)
        ensures
            r@ == Seq::<Step>::empty(),
    {
        let r = Suffix(Vec::new());
        proof {
            assert(r@ =~= Seq::<Step>::empty());
        }
        r
    }

    /// The accessors, in order.
    pub fn as_slice(&self) -> (r: &[Accessor])
        ensures
            r@ == self.0@,
            steps(r@) == self@,
    {
        self.0.as_slice()
    }

    /// How many accessors: the *depth* of any path carrying this suffix.
    pub fn len(&self) -> (r: usize)
        ensures
            r == self@.len(),
    {
        self.0.len()
    }

    /// True for the empty suffix.
    pub fn is_empty(&self) -> (r: bool)
        ensures
            r == (self@.len() == 0),
    {
        self.0.len() == 0
    }

    /// `self` followed by `rest`.
    pub fn extended(&self, rest: &[Accessor]) -> (r: Self)
        ensures
            r@ == self@ + steps(rest@),
    {
        let mut accessors = copy_accessors(self.0.as_slice());
        push_accessors(&mut accessors, rest);
        let r = Suffix(accessors);
        proof {
            assert(r@ =~= self@ + steps(rest@));
        }
        r
    }

    /// `a` followed by `self`. The direction the syntactic bound builds in: an
    /// outer accessor is discovered *after* the suffix beneath it.
    pub fn prepended(&self, a: &Accessor) -> (r: Self)
        ensures
            r@ == seq![a@] + self@,
    {
        let mut accessors: Vec<Accessor> = Vec::new();
        accessors.push(a.clone());
        push_accessors(&mut accessors, self.0.as_slice());
        let r = Suffix(accessors);
        proof {
            assert(r@ =~= seq![a@] + self@);
        }
        r
    }

    /// Every way to cut this suffix into a prefix and a *non-empty* rest, the
    /// shortest prefix first: `.f.g` yields the empty prefix with `.f.g`, then
    /// `.f` with `.g`; the empty suffix yields nothing.
    pub fn splits(&self) -> (r: Vec<(Suffix, Suffix)>)
        ensures
            r@.len() == self@.len(),
            forall|i: int|
                0 <= i < self@.len() ==> (#[trigger] r@[i]).0@ == self@.take(i) && r@[i].1@
                    == self@.skip(i),
    {
        let mut r: Vec<(Suffix, Suffix)> = Vec::new();
        let mut i: usize = 0;
        while i < self.0.len()
            invariant
                i <= self.0@.len(),
                r@.len() == i,
                forall|j: int|
                    0 <= j < i ==> (#[trigger] r@[j]).0@ == self@.take(j) && r@[j].1@
                        == self@.skip(j),
            decreases self.0@.len() - i,
        {
            let (head, rest) = self.0.as_slice().split_at(i);
            let cut = (Suffix(copy_accessors(head)), Suffix(copy_accessors(rest)));
            proof {
                assert(cut.0@ =~= self@.take(i as int));
                assert(cut.1@ =~= self@.skip(i as int));
            }
            r.push(cut);
            i += 1;
        }
        r
    }

    pub fn to_string(&self) -> (r: String)
        ensures
            r@ == show_suffix(self@),
    {
        if self.0.len() == 0 {
            return "\u{3b5}".to_owned();
        }
        let mut r = String::new();
        show_accessors(&mut r, self.0.as_slice());
        proof {
            assert(r@ =~= show_steps(self@));
        }
        r
    }
}

// ---------------------------------------------------------------------------
// Access paths
// ---------------------------------------------------------------------------

/// An access path, e.g. `par_1@getP["cur"]`.
#[derive(Debug, Eq, PartialOrd, Ord, Hash)]
pub struct AccessPath {
    pub base: Base,
    pub accessors: Vec<Accessor>,
}

impl View for AccessPath {
    type V = Path;

    open spec fn view(&self) -> Path {
        Path { root: self.base@, steps: steps(self.accessors@) }
    }
}

impl Clone for AccessPath {
    fn clone(&self) -> (r: Self)
        ensures
            r@ == self@,
    {
        AccessPath {
            base: self.base.clone(),
            accessors: copy_accessors(self.accessors.as_slice()),
        }
    }
}

impl PartialEq for AccessPath {
    fn eq(&self, other: &Self) -> (r: bool) {
        self.base == other.base && same_accessors(
            self.accessors.as_slice(),
            other.accessors.as_slice(),
        )
    }
}

impl vstd::std_specs::cmp::PartialEqSpecImpl for AccessPath {
    open spec fn obeys_eq_spec() -> bool {
        true
    }

    open spec fn eq_spec(&self, other: &Self) -> bool {
        self@ == other@
    }
}

impl AccessPath {
    /// The bare path `base`, with no accessors.
    pub fn new(base: Base) -> (r: Self)
        ensures
            r.base == base,
            r@ == Path::bare(base@),
    {
        let r = AccessPath { base, accessors: Vec::new() };
        proof {
            assert(r@.steps =~= Seq::<Step>::empty());
        }
        r
    }

    /// The path `v` for a program variable.
    pub fn var<V: Into<Var>>(v: V) -> (r: Self)
        ensures
            r.base matches Base::Var(x) && call_ensures(V::into, (v,), x),
            r@ == Path::bare(r.base@),
    {
        Self::new(Base::Var(v.into()))
    }

    /// The path `par_i@p`.
    pub fn param<P: Into<Proc>>(p: P, i: ArgIdx) -> (r: Self)
        ensures
            r.base matches Base::Param(x, j) && call_ensures(P::into, (p,), x) && j == i,
            r@ == Path::bare(r.base@),
    {
        Self::new(Base::Param(p.into(), i))
    }

    /// The path `ret@p`.
    pub fn ret<P: Into<Proc>>(p: P) -> (r: Self)
        ensures
            r.base matches Base::Ret(x) && call_ensures(P::into, (p,), x),
            r@ == Path::bare(r.base@),
    {
        Self::new(Base::Ret(p.into()))
    }

    /// The placeholder node for the `i`-th operand of a pending critical
    /// statement. Operand 0 is the receiver of a virtual call.
    pub fn crit_slot(id: CritId, i: ArgIdx) -> (r: Self)
        ensures
            r@ == Path::slot(id@, i),
    {
        Self::new(Base::CritSlot(id, i))
    }

    /// The placeholder node for a pending critical statement's result.
    pub fn crit_ret(id: CritId) -> (r: Self)
        ensures
            r@ == Path::res(id@),
    {
        Self::new(Base::CritRet(id))
    }

    fn extended(&self, a: Accessor) -> (r: Self)
        ensures
            r@ == self@.then_step(a@),
    {
        let mut suffix = copy_accessors(self.accessors.as_slice());
        suffix.push(a);
        let r = AccessPath { base: self.base.clone(), accessors: suffix };
        proof {
            assert(r@.steps =~= self@.steps.push(a@));
        }
        r
    }

    /// This path with the field `f` appended.
    pub fn field<F: Into<Field>>(&self, f: F) -> (r: Self)
        ensures
            exists|x: Field| #[trigger] call_ensures(F::into, (f,), x) && r@ == self@.then_step(
                Step::Field(x@),
            ),
    {
        let x: Field = f.into();
        self.extended(Accessor::Field(x))
    }

    /// This path with the constant index `c` appended.
    pub fn index<C: Into<Const>>(&self, c: C) -> (r: Self)
        ensures
            exists|x: Const| #[trigger] call_ensures(C::into, (c,), x) && r@ == self@.then_step(
                Step::Index(x@),
            ),
    {
        let x: Const = c.into();
        self.extended(Accessor::Index(x))
    }

    /// This path with an undecided index appended.
    pub fn index_unknown(&self) -> (r: Self)
        ensures
            r@ == self@.then_step(Step::Unknown),
    {
        self.extended(Accessor::IndexUnknown)
    }

    /// True for a bare root: a variable or symbolic variable itself.
    pub fn is_base(&self) -> (r: bool)
        ensures
            r == (self@.steps.len() == 0),
    {
        self.accessors.len() == 0
    }

    /// The same suffix hung off a different root. This is the whole of a
    /// substitution: inlining renames roots and keeps suffixes.
    pub fn rebase(&self, base: Base) -> (r: Self)
        ensures
            r@ == self@.rebase(base@),
    {
        AccessPath { base, accessors: copy_accessors(self.accessors.as_slice()) }
    }

    /// This path's accessor sequence, without its root.
    pub fn suffix(&self) -> (r: Suffix)
        ensures
            r@ == self@.steps,
    {
        Suffix(copy_accessors(self.accessors.as_slice()))
    }

    /// This path's root carrying `suffix` instead of its own.
    pub fn with_suffix(&self, suffix: &Suffix) -> (r: Self)
        ensures
            r@ == self@.with_steps(suffix@),
    {
        AccessPath {
            base: self.base.clone(),
            accessors: copy_accessors(suffix.0.as_slice()),
        }
    }

    /// This path with `rest` appended.
    pub fn extend(&self, rest: &[Accessor]) -> (r: Self)
        ensures
            r@ == self@.with_steps(self@.steps + steps(rest@)),
    {
        let mut accessors = copy_accessors(self.accessors.as_slice());
        push_accessors(&mut accessors, rest);
        let r = AccessPath { base: self.base.clone(), accessors };
        proof {
            assert(r@.steps =~= self@.steps + steps(rest@));
        }
        r
    }

    /// If `self` is `prefix` followed by more accessors, the extra accessors;
    /// `None` for unrelated paths.
    pub fn strip_prefix(&self, prefix: &AccessPath) -> (r: Option<&[Accessor]>)
        ensures
            match r {
                Some(rest) => self@ == prefix@.with_steps(prefix@.steps + steps(rest@)),
                None => !self@.extends(prefix@),
            },
    {
        if self.base != prefix.base || self.accessors.len() < prefix.accessors.len() {
            return None;
        }
        let (head, rest) = self.accessors.as_slice().split_at(prefix.accessors.len());
        if same_accessors(head, prefix.accessors.as_slice()) {
            proof {
                assert(self@.steps =~= steps(head@) + steps(rest@));
            }
            Some(rest)
        } else {
            proof {
                if self@.extends(prefix@) {
                    assert(steps(head@) =~= prefix@.steps);
                }
            }
            None
        }
    }

    pub fn to_string(&self) -> (r: String)
        ensures
            r@ == self@.show(),
    {
        let mut r = self.base.to_string();
        show_accessors(&mut r, self.accessors.as_slice());
        r
    }
}

// ---------------------------------------------------------------------------
// Points-to values and constraints
// ---------------------------------------------------------------------------

/// An element of a points-to set: what the right-hand side of a constraint
/// contributes.
///
/// A compositional summary is computed without a caller, so a points-to set may
/// contain *symbolic* paths, "whatever the caller passes as `par_1@p`", and the
/// analysis must never drop them.
#[derive(Debug, Eq, PartialOrd, Ord, Hash)]
pub enum PtVal {
    /// An as-yet-unknown value, named by the path it will come from.
    Path(AccessPath),
    /// The object allocated at a site.
    Alloc(Alloc),
    /// A constant.
    Const(Const),
}

impl View for PtVal {
    type V = Value;

    open spec fn view(&self) -> Value {
        match self {
            PtVal::Path(w) => Value::Path(w@),
            PtVal::Alloc(l) => Value::Alloc(l@),
            PtVal::Const(c) => Value::Const(c@),
        }
    }
}

impl Clone for PtVal {
    fn clone(&self) -> (r: Self)
        ensures
            r@ == self@,
    {
        match self {
            PtVal::Path(w) => PtVal::Path(w.clone()),
            PtVal::Alloc(l) => PtVal::Alloc(l.clone()),
            PtVal::Const(c) => PtVal::Const(c.clone()),
        }
    }
}

impl PartialEq for PtVal {
    fn eq(&self, other: &Self) -> (r: bool) {
        match (self, other) {
            (PtVal::Path(a), PtVal::Path(b)) => *a == *b,
            (PtVal::Alloc(a), PtVal::Alloc(b)) => *a == *b,
            (PtVal::Const(a), PtVal::Const(b)) => *a == *b,
            _ => false,
        }
    }
}

impl vstd::std_specs::cmp::PartialEqSpecImpl for PtVal {
    open spec fn obeys_eq_spec() -> bool {
        true
    }

    open spec fn eq_spec(&self, other: &Self) -> bool {
        self@ == other@
    }
}

impl PtVal {
    /// True for [`PtVal::Path`], a value the caller may still change.
    pub fn is_path(&self) -> (r: bool)
        ensures
            r == (self@ is Path),
    {
        match self {
            PtVal::Path(_) => true,
            _ => false,
        }
    }

    /// The constraint that `sup` contains `self`.
    pub fn constrain(&self, sup: AccessPath) -> (r: Constraint)
        ensures
            r@ == (Inclusion { sup: sup@, sub: self@ }),
    {
        match self {
            PtVal::Path(sub) => Constraint::Path { sup, sub: sub.clone() },
            PtVal::Alloc(sub) => Constraint::Alloc { sup, sub: sub.clone() },
            PtVal::Const(sub) => Constraint::Const { sup, sub: sub.clone() },
        }
    }

    pub fn to_string(&self) -> (r: String)
        ensures
            r@ == self@.show(),
    {
        match self {
            PtVal::Path(w) => w.to_string(),
            PtVal::Alloc(l) => text::cat3("{", l.as_ref(), "}"),
            PtVal::Const(c) => text::cat3("{", c.as_ref(), "}"),
        }
    }
}

/// One set constraint of an abstract state.
#[derive(Debug, Eq, PartialOrd, Ord, Hash)]
#[allow(inconsistent_fields)]
pub enum Constraint {
    /// Everything `sub` may point to, `sup` may point to.
    Path { sup: AccessPath, sub: AccessPath },
    /// `sup` may point to the object allocated at site `sub`.
    Alloc { sup: AccessPath, sub: Alloc },
    /// `sup` may hold the constant `sub`.
    Const { sup: AccessPath, sub: Const },
}

impl View for Constraint {
    type V = Inclusion;

    open spec fn view(&self) -> Inclusion {
        match self {
            Constraint::Path { sup, sub } => Inclusion { sup: sup@, sub: Value::Path(sub@) },
            Constraint::Alloc { sup, sub } => Inclusion { sup: sup@, sub: Value::Alloc(sub@) },
            Constraint::Const { sup, sub } => Inclusion { sup: sup@, sub: Value::Const(sub@) },
        }
    }
}

impl Clone for Constraint {
    fn clone(&self) -> (r: Self)
        ensures
            r@ == self@,
    {
        match self {
            Constraint::Path { sup, sub } => Constraint::Path { sup: sup.clone(),
                sub: sub.clone() },
            Constraint::Alloc { sup, sub } => Constraint::Alloc {
                sup: sup.clone(),
                sub: sub.clone(),
            },
            Constraint::Const { sup, sub } => Constraint::Const {
                sup: sup.clone(),
                sub: sub.clone(),
            },
        }
    }
}

impl PartialEq for Constraint {
    fn eq(&self, other: &Self) -> (r: bool) {
        match (self, other) {
            (Constraint::Path { sup: a, sub: b }, Constraint::Path { sup: c, sub: d }) => *a == *c
                && *b == *d,
            (Constraint::Alloc { sup: a, sub: b }, Constraint::Alloc { sup: c, sub: d }) => *a == *c
                && *b == *d,
            (Constraint::Const { sup: a, sub: b }, Constraint::Const { sup: c, sub: d }) => *a == *c
                && *b == *d,
            _ => false,
        }
    }
}

impl vstd::std_specs::cmp::PartialEqSpecImpl for Constraint {
    open spec fn obeys_eq_spec() -> bool {
        true
    }

    open spec fn eq_spec(&self, other: &Self) -> bool {
        self@ == other@
    }
}

impl Constraint {
    /// The access paths this constraint mentions, left-hand side first.
    pub fn paths(&self) -> (r: Vec<&AccessPath>)
        ensures
            r@.len() == (if self@.sub is Path {
                2nat
            } else {
                1nat
            }),
            r@[0]@ == self@.sup,
            self@.sub matches Value::Path(w) ==> r@[1]@ == w,
    {
        let mut r: Vec<&AccessPath> = Vec::new();
        match self {
            Constraint::Path { sup, sub } => {
                r.push(sup);
                r.push(sub);
            },
            Constraint::Alloc { sup, .. } => {
                r.push(sup);
            },
            Constraint::Const { sup, .. } => {
                r.push(sup);
            },
        }
        r
    }

    pub fn to_string(&self) -> (r: String)
        ensures
            r@ == self@.show(),
    {
        match self {
            Constraint::Path { sup, sub } => text::cat3(
                sup.to_string().as_str(),
                " \u{2287} ",
                sub.to_string().as_str(),
            ),
            Constraint::Alloc { sup, sub } => {
                let mut r = sup.to_string();
                r.append(" \u{2287} ");
                r.append(text::cat3("{", sub.as_ref(), "}").as_str());
                r
            },
            Constraint::Const { sup, sub } => {
                let mut r = sup.to_string();
                r.append(" \u{2287} ");
                r.append(text::cat3("{", sub.as_ref(), "}").as_str());
                r
            },
        }
    }
}

/// A procedure's summary: the constraints it adds, without repetition, in
/// ascending order.
pub type Summary = Vec<Constraint>;

} // verus!
