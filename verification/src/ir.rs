//! The facts that encode a program.
//!
//! These are the *input* relations only, the facts a front end emits for a
//! program. No rule lives here; the analysis is layered on top of this schema.
//!
//! ```text
//! proc := stmt+
//! stmt := lv = expr | call proc(lv_0..n)
//! lv   := v | lv.f | lv[c] | lv[v]
//! expr := lv | c | l
//! ```
//!
//! Every statement mentions at most one field or index access, temporaries have
//! been introduced where needed, and every statement has a unique [`Stmt`] id.
use vstd::prelude::*;

use crate::access_path::{Step, Suffix};

verus! {

/// The text of a symbol, in specifications.
pub type Name = Seq<char>;

/// What every symbol type is: a piece of text under a type of its own.
pub trait Symbol: View<V = Name> + Sized {
    fn text(&self) -> (r: &String)
        ensures
            r@ == self@,
    ;

    fn of(s: String) -> (r: Self)
        ensures
            r@ == s@,
    ;
}

/// A procedure implementation, e.g. `FacadeImpl.foo`.
#[derive(Debug, Eq, PartialOrd, Ord, Hash)]
pub struct Proc(pub String);

impl View for Proc {
    type V = Name;

    open spec fn view(&self) -> Name {
        self.0@
    }
}

impl Clone for Proc {
    fn clone(&self) -> (r: Self)
        ensures
            r == *self,
    {
        Proc(self.0.clone())
    }
}

impl PartialEq for Proc {
    fn eq(&self, other: &Self) -> (r: bool) {
        self.0 == other.0
    }
}

impl vstd::std_specs::cmp::PartialEqSpecImpl for Proc {
    open spec fn obeys_eq_spec() -> bool {
        true
    }

    open spec fn eq_spec(&self, other: &Self) -> bool {
        self@ == other@
    }
}

impl From<&str> for Proc {
    fn from(s: &str) -> (r: Self)
        ensures
            r@ == s@,
    {
        Proc(s.to_owned())
    }
}

impl vstd::std_specs::convert::FromSpecImpl<&str> for Proc {
    open spec fn obeys_from_spec() -> bool {
        false
    }

    open spec fn from_spec(s: &str) -> Self {
        arbitrary()
    }
}

impl From<String> for Proc {
    fn from(s: String) -> (r: Self)
        ensures
            r@ == s@,
    {
        Proc(s)
    }
}

impl vstd::std_specs::convert::FromSpecImpl<String> for Proc {
    open spec fn obeys_from_spec() -> bool {
        true
    }

    open spec fn from_spec(s: String) -> Self {
        Proc(s)
    }
}

impl Symbol for Proc {
    fn text(&self) -> (r: &String) {
        &self.0
    }

    fn of(s: String) -> (r: Self) {
        Proc(s)
    }
}

impl Proc {
    /// The symbol's text.
    pub fn as_ref(&self) -> (r: &str)
        ensures
            r@ == self@,
    {
        self.0.as_str()
    }

    /// The symbol as it is shown: its bare text.
    pub fn to_string(&self) -> (r: String)
        ensures
            r@ == self@,
    {
        self.0.clone()
    }
}

/// A unique statement label. Statement identity matters here: Hybrid
/// Inlining classifies *statements* as critical or non-critical.
#[derive(Debug, Eq, PartialOrd, Ord, Hash)]
pub struct Stmt(pub String);

impl View for Stmt {
    type V = Name;

    open spec fn view(&self) -> Name {
        self.0@
    }
}

impl Clone for Stmt {
    fn clone(&self) -> (r: Self)
        ensures
            r == *self,
    {
        Stmt(self.0.clone())
    }
}

impl PartialEq for Stmt {
    fn eq(&self, other: &Self) -> (r: bool) {
        self.0 == other.0
    }
}

impl vstd::std_specs::cmp::PartialEqSpecImpl for Stmt {
    open spec fn obeys_eq_spec() -> bool {
        true
    }

    open spec fn eq_spec(&self, other: &Self) -> bool {
        self@ == other@
    }
}

impl From<&str> for Stmt {
    fn from(s: &str) -> (r: Self)
        ensures
            r@ == s@,
    {
        Stmt(s.to_owned())
    }
}

impl vstd::std_specs::convert::FromSpecImpl<&str> for Stmt {
    open spec fn obeys_from_spec() -> bool {
        false
    }

    open spec fn from_spec(s: &str) -> Self {
        arbitrary()
    }
}

impl From<String> for Stmt {
    fn from(s: String) -> (r: Self)
        ensures
            r@ == s@,
    {
        Stmt(s)
    }
}

impl vstd::std_specs::convert::FromSpecImpl<String> for Stmt {
    open spec fn obeys_from_spec() -> bool {
        true
    }

    open spec fn from_spec(s: String) -> Self {
        Stmt(s)
    }
}

impl Symbol for Stmt {
    fn text(&self) -> (r: &String) {
        &self.0
    }

    fn of(s: String) -> (r: Self) {
        Stmt(s)
    }
}

impl Stmt {
    /// The symbol's text.
    pub fn as_ref(&self) -> (r: &str)
        ensures
            r@ == self@,
    {
        self.0.as_str()
    }

    /// The symbol as it is shown: its bare text.
    pub fn to_string(&self) -> (r: String)
        ensures
            r@ == self@,
    {
        self.0.clone()
    }
}

/// A local variable or formal.
#[derive(Debug, Eq, PartialOrd, Ord, Hash)]
pub struct Var(pub String);

impl View for Var {
    type V = Name;

    open spec fn view(&self) -> Name {
        self.0@
    }
}

impl Clone for Var {
    fn clone(&self) -> (r: Self)
        ensures
            r == *self,
    {
        Var(self.0.clone())
    }
}

impl PartialEq for Var {
    fn eq(&self, other: &Self) -> (r: bool) {
        self.0 == other.0
    }
}

impl vstd::std_specs::cmp::PartialEqSpecImpl for Var {
    open spec fn obeys_eq_spec() -> bool {
        true
    }

    open spec fn eq_spec(&self, other: &Self) -> bool {
        self@ == other@
    }
}

impl From<&str> for Var {
    fn from(s: &str) -> (r: Self)
        ensures
            r@ == s@,
    {
        Var(s.to_owned())
    }
}

impl vstd::std_specs::convert::FromSpecImpl<&str> for Var {
    open spec fn obeys_from_spec() -> bool {
        false
    }

    open spec fn from_spec(s: &str) -> Self {
        arbitrary()
    }
}

impl From<String> for Var {
    fn from(s: String) -> (r: Self)
        ensures
            r@ == s@,
    {
        Var(s)
    }
}

impl vstd::std_specs::convert::FromSpecImpl<String> for Var {
    open spec fn obeys_from_spec() -> bool {
        true
    }

    open spec fn from_spec(s: String) -> Self {
        Var(s)
    }
}

impl Symbol for Var {
    fn text(&self) -> (r: &String) {
        &self.0
    }

    fn of(s: String) -> (r: Self) {
        Var(s)
    }
}

impl Var {
    /// The symbol's text.
    pub fn as_ref(&self) -> (r: &str)
        ensures
            r@ == self@,
    {
        self.0.as_str()
    }

    /// The symbol as it is shown: its bare text.
    pub fn to_string(&self) -> (r: String)
        ensures
            r@ == self@,
    {
        self.0.clone()
    }
}

/// A field name.
#[derive(Debug, Eq, PartialOrd, Ord, Hash)]
pub struct Field(pub String);

impl View for Field {
    type V = Name;

    open spec fn view(&self) -> Name {
        self.0@
    }
}

impl Clone for Field {
    fn clone(&self) -> (r: Self)
        ensures
            r == *self,
    {
        Field(self.0.clone())
    }
}

impl PartialEq for Field {
    fn eq(&self, other: &Self) -> (r: bool) {
        self.0 == other.0
    }
}

impl vstd::std_specs::cmp::PartialEqSpecImpl for Field {
    open spec fn obeys_eq_spec() -> bool {
        true
    }

    open spec fn eq_spec(&self, other: &Self) -> bool {
        self@ == other@
    }
}

impl From<&str> for Field {
    fn from(s: &str) -> (r: Self)
        ensures
            r@ == s@,
    {
        Field(s.to_owned())
    }
}

impl vstd::std_specs::convert::FromSpecImpl<&str> for Field {
    open spec fn obeys_from_spec() -> bool {
        false
    }

    open spec fn from_spec(s: &str) -> Self {
        arbitrary()
    }
}

impl From<String> for Field {
    fn from(s: String) -> (r: Self)
        ensures
            r@ == s@,
    {
        Field(s)
    }
}

impl vstd::std_specs::convert::FromSpecImpl<String> for Field {
    open spec fn obeys_from_spec() -> bool {
        true
    }

    open spec fn from_spec(s: String) -> Self {
        Field(s)
    }
}

impl Symbol for Field {
    fn text(&self) -> (r: &String) {
        &self.0
    }

    fn of(s: String) -> (r: Self) {
        Field(s)
    }
}

impl Field {
    /// The symbol's text.
    pub fn as_ref(&self) -> (r: &str)
        ensures
            r@ == self@,
    {
        self.0.as_str()
    }

    /// The symbol as it is shown: its bare text.
    pub fn to_string(&self) -> (r: String)
        ensures
            r@ == self@,
    {
        self.0.clone()
    }
}

/// A constant used as a value or as an index.
#[derive(Debug, Eq, PartialOrd, Ord, Hash)]
pub struct Const(pub String);

impl View for Const {
    type V = Name;

    open spec fn view(&self) -> Name {
        self.0@
    }
}

impl Clone for Const {
    fn clone(&self) -> (r: Self)
        ensures
            r == *self,
    {
        Const(self.0.clone())
    }
}

impl PartialEq for Const {
    fn eq(&self, other: &Self) -> (r: bool) {
        self.0 == other.0
    }
}

impl vstd::std_specs::cmp::PartialEqSpecImpl for Const {
    open spec fn obeys_eq_spec() -> bool {
        true
    }

    open spec fn eq_spec(&self, other: &Self) -> bool {
        self@ == other@
    }
}

impl From<&str> for Const {
    fn from(s: &str) -> (r: Self)
        ensures
            r@ == s@,
    {
        Const(s.to_owned())
    }
}

impl vstd::std_specs::convert::FromSpecImpl<&str> for Const {
    open spec fn obeys_from_spec() -> bool {
        false
    }

    open spec fn from_spec(s: &str) -> Self {
        arbitrary()
    }
}

impl From<String> for Const {
    fn from(s: String) -> (r: Self)
        ensures
            r@ == s@,
    {
        Const(s)
    }
}

impl vstd::std_specs::convert::FromSpecImpl<String> for Const {
    open spec fn obeys_from_spec() -> bool {
        true
    }

    open spec fn from_spec(s: String) -> Self {
        Const(s)
    }
}

impl Symbol for Const {
    fn text(&self) -> (r: &String) {
        &self.0
    }

    fn of(s: String) -> (r: Self) {
        Const(s)
    }
}

impl Const {
    /// The symbol's text.
    pub fn as_ref(&self) -> (r: &str)
        ensures
            r@ == self@,
    {
        self.0.as_str()
    }

    /// The symbol as it is shown: its bare text.
    pub fn to_string(&self) -> (r: String)
        ensures
            r@ == self@,
    {
        self.0.clone()
    }
}

/// An allocation site, standing for every object it allocates.
#[derive(Debug, Eq, PartialOrd, Ord, Hash)]
pub struct Alloc(pub String);

impl View for Alloc {
    type V = Name;

    open spec fn view(&self) -> Name {
        self.0@
    }
}

impl Clone for Alloc {
    fn clone(&self) -> (r: Self)
        ensures
            r == *self,
    {
        Alloc(self.0.clone())
    }
}

impl PartialEq for Alloc {
    fn eq(&self, other: &Self) -> (r: bool) {
        self.0 == other.0
    }
}

impl vstd::std_specs::cmp::PartialEqSpecImpl for Alloc {
    open spec fn obeys_eq_spec() -> bool {
        true
    }

    open spec fn eq_spec(&self, other: &Self) -> bool {
        self@ == other@
    }
}

impl From<&str> for Alloc {
    fn from(s: &str) -> (r: Self)
        ensures
            r@ == s@,
    {
        Alloc(s.to_owned())
    }
}

impl vstd::std_specs::convert::FromSpecImpl<&str> for Alloc {
    open spec fn obeys_from_spec() -> bool {
        false
    }

    open spec fn from_spec(s: &str) -> Self {
        arbitrary()
    }
}

impl From<String> for Alloc {
    fn from(s: String) -> (r: Self)
        ensures
            r@ == s@,
    {
        Alloc(s)
    }
}

impl vstd::std_specs::convert::FromSpecImpl<String> for Alloc {
    open spec fn obeys_from_spec() -> bool {
        true
    }

    open spec fn from_spec(s: String) -> Self {
        Alloc(s)
    }
}

impl Symbol for Alloc {
    fn text(&self) -> (r: &String) {
        &self.0
    }

    fn of(s: String) -> (r: Self) {
        Alloc(s)
    }
}

impl Alloc {
    /// The symbol's text.
    pub fn as_ref(&self) -> (r: &str)
        ensures
            r@ == self@,
    {
        self.0.as_str()
    }

    /// The symbol as it is shown: its bare text.
    pub fn to_string(&self) -> (r: String)
        ensures
            r@ == self@,
    {
        self.0.clone()
    }
}

/// A class or interface type.
#[derive(Debug, Eq, PartialOrd, Ord, Hash)]
pub struct Type(pub String);

impl View for Type {
    type V = Name;

    open spec fn view(&self) -> Name {
        self.0@
    }
}

impl Clone for Type {
    fn clone(&self) -> (r: Self)
        ensures
            r == *self,
    {
        Type(self.0.clone())
    }
}

impl PartialEq for Type {
    fn eq(&self, other: &Self) -> (r: bool) {
        self.0 == other.0
    }
}

impl vstd::std_specs::cmp::PartialEqSpecImpl for Type {
    open spec fn obeys_eq_spec() -> bool {
        true
    }

    open spec fn eq_spec(&self, other: &Self) -> bool {
        self@ == other@
    }
}

impl From<&str> for Type {
    fn from(s: &str) -> (r: Self)
        ensures
            r@ == s@,
    {
        Type(s.to_owned())
    }
}

impl vstd::std_specs::convert::FromSpecImpl<&str> for Type {
    open spec fn obeys_from_spec() -> bool {
        false
    }

    open spec fn from_spec(s: &str) -> Self {
        arbitrary()
    }
}

impl From<String> for Type {
    fn from(s: String) -> (r: Self)
        ensures
            r@ == s@,
    {
        Type(s)
    }
}

impl vstd::std_specs::convert::FromSpecImpl<String> for Type {
    open spec fn obeys_from_spec() -> bool {
        true
    }

    open spec fn from_spec(s: String) -> Self {
        Type(s)
    }
}

impl Symbol for Type {
    fn text(&self) -> (r: &String) {
        &self.0
    }

    fn of(s: String) -> (r: Self) {
        Type(s)
    }
}

impl Type {
    /// The symbol's text.
    pub fn as_ref(&self) -> (r: &str)
        ensures
            r@ == self@,
    {
        self.0.as_str()
    }

    /// The symbol as it is shown: its bare text.
    pub fn to_string(&self) -> (r: String)
        ensures
            r@ == self@,
    {
        self.0.clone()
    }
}

/// A virtual callee's signature, resolved against a receiver's type by the
/// program's `lookup` facts, e.g. `poly(Obj)`.
#[derive(Debug, Eq, PartialOrd, Ord, Hash)]
pub struct Sig(pub String);

impl View for Sig {
    type V = Name;

    open spec fn view(&self) -> Name {
        self.0@
    }
}

impl Clone for Sig {
    fn clone(&self) -> (r: Self)
        ensures
            r == *self,
    {
        Sig(self.0.clone())
    }
}

impl PartialEq for Sig {
    fn eq(&self, other: &Self) -> (r: bool) {
        self.0 == other.0
    }
}

impl vstd::std_specs::cmp::PartialEqSpecImpl for Sig {
    open spec fn obeys_eq_spec() -> bool {
        true
    }

    open spec fn eq_spec(&self, other: &Self) -> bool {
        self@ == other@
    }
}

impl From<&str> for Sig {
    fn from(s: &str) -> (r: Self)
        ensures
            r@ == s@,
    {
        Sig(s.to_owned())
    }
}

impl vstd::std_specs::convert::FromSpecImpl<&str> for Sig {
    open spec fn obeys_from_spec() -> bool {
        false
    }

    open spec fn from_spec(s: &str) -> Self {
        arbitrary()
    }
}

impl From<String> for Sig {
    fn from(s: String) -> (r: Self)
        ensures
            r@ == s@,
    {
        Sig(s)
    }
}

impl vstd::std_specs::convert::FromSpecImpl<String> for Sig {
    open spec fn obeys_from_spec() -> bool {
        true
    }

    open spec fn from_spec(s: String) -> Self {
        Sig(s)
    }
}

impl Symbol for Sig {
    fn text(&self) -> (r: &String) {
        &self.0
    }

    fn of(s: String) -> (r: Self) {
        Sig(s)
    }
}

impl Sig {
    /// The symbol's text.
    pub fn as_ref(&self) -> (r: &str)
        ensures
            r@ == self@,
    {
        self.0.as_str()
    }

    /// The symbol as it is shown: its bare text.
    pub fn to_string(&self) -> (r: String)
        ensures
            r@ == self@,
    {
        self.0.clone()
    }
}

/// Position of a formal parameter or actual argument. Index 0 is `par_0`, the
/// receiver (`this`) of an instance method.
pub type ArgIdx = usize;

/// Position of a statement within its enclosing procedure's body.
pub type Line = usize;

/// The program under analysis, as a set of relations. Populate the public
/// fields directly.
pub struct Program {
    /// `p` is a procedure with a body we can see.
    pub procedure: Vec<(Proc,)>,
    /// `p` is declared in class or interface `t`.
    pub proc_type: Vec<(Proc, Type)>,
    /// `p` implements signature `s`.
    pub proc_sig: Vec<(Proc, Sig)>,
    /// `p` is a root procedure, e.g. `service()`.
    pub entry: Vec<(Proc,)>,
    /// Statement `s` is the `n`-th statement of `p`'s body.
    pub in_proc: Vec<(Stmt, Proc, Line)>,
    /// `v = new ...` at allocation site `l`.
    pub alloc: Vec<(Stmt, Var, Alloc)>,
    /// The site `l` allocates an object of type `t`.
    pub alloc_type: Vec<(Alloc, Type)>,
    /// `v = c`.
    pub const_assign: Vec<(Stmt, Var, Const)>,
    /// `to = from`.
    pub mov: Vec<(Stmt, Var, Var)>,
    /// `to = base.f`.
    pub load_field: Vec<(Stmt, Var, Var, Field)>,
    /// `base.f = from`.
    pub store_field: Vec<(Stmt, Var, Field, Var)>,
    /// `to = t.f` for a static field.
    pub load_static: Vec<(Stmt, Var, Type, Field)>,
    /// `t.f = from`.
    pub store_static: Vec<(Stmt, Type, Field, Var)>,
    /// `to = base[c]`.
    pub load_index_const: Vec<(Stmt, Var, Var, Const)>,
    /// `base[c] = from`.
    pub store_index_const: Vec<(Stmt, Var, Const, Var)>,
    /// `to = base[i]` with a *variable* index. Critical: the index is unknown
    /// until the caller's context is known.
    pub load_index_var: Vec<(Stmt, Var, Var, Var)>,
    /// `base[i] = from`. Also critical.
    pub store_index_var: Vec<(Stmt, Var, Var, Var)>,
    /// The callee is statically known.
    pub direct_call: Vec<(Stmt, Proc)>,
    /// `recv.sig(...)`, dispatched on the runtime type of `recv`.
    pub virtual_call: Vec<(Stmt, Var, Sig)>,
    /// `v` is the `i`-th argument at callsite `s`. For a virtual call, argument
    /// 0 is the receiver.
    pub actual_arg: Vec<(Stmt, ArgIdx, Var)>,
    /// `v = <callsite s>`; absent when the result is dropped.
    pub bind_ret: Vec<(Stmt, Var)>,
    /// `v` is `par_i@p`. Index 0 is `this` for instance methods.
    pub formal: Vec<(Proc, ArgIdx, Var)>,
    /// `v` flows to `ret@p`.
    pub ret: Vec<(Proc, Var)>,
    /// Immediate `extends` / `implements` edge.
    pub direct_subtype: Vec<(Type, Type)>,
    /// Dispatching `sig` on a receiver of runtime type `t` selects `p`.
    pub lookup: Vec<(Type, Sig, Proc)>,
    /// The access-path vocabulary: the accessor sequences the analysis may
    /// build. Empty means that no bound was chosen.
    pub paths: Vec<(Suffix,)>,
}

/// A program's facts in specifications: each relation is the set of its tuples.
#[verifier::ext_equal]
pub struct Edb {
    pub procedure: Set<Name>,
    pub proc_type: Set<(Name, Name)>,
    pub proc_sig: Set<(Name, Name)>,
    pub entry: Set<Name>,
    pub in_proc: Set<(Name, Name, usize)>,
    pub alloc: Set<(Name, Name, Name)>,
    pub alloc_type: Set<(Name, Name)>,
    pub const_assign: Set<(Name, Name, Name)>,
    pub mov: Set<(Name, Name, Name)>,
    pub load_field: Set<(Name, Name, Name, Name)>,
    pub store_field: Set<(Name, Name, Name, Name)>,
    pub load_static: Set<(Name, Name, Name, Name)>,
    pub store_static: Set<(Name, Name, Name, Name)>,
    pub load_index_const: Set<(Name, Name, Name, Name)>,
    pub store_index_const: Set<(Name, Name, Name, Name)>,
    pub load_index_var: Set<(Name, Name, Name, Name)>,
    pub store_index_var: Set<(Name, Name, Name, Name)>,
    pub direct_call: Set<(Name, Name)>,
    pub virtual_call: Set<(Name, Name, Name)>,
    pub actual_arg: Set<(Name, usize, Name)>,
    pub bind_ret: Set<(Name, Name)>,
    pub formal: Set<(Name, usize, Name)>,
    pub ret: Set<(Name, Name)>,
    pub direct_subtype: Set<(Name, Name)>,
    pub lookup: Set<(Name, Name, Name)>,
    pub paths: Set<Seq<Step>>,
}

/// The tuple `t` by the text of its symbols.
pub open spec fn one_view<A: Symbol>(t: (A,)) -> Name {
    t.0@
}

/// The tuples of `v` as a set.
pub open spec fn one_set<A: Symbol>(v: Seq<(A,)>) -> Set<Name> {
    Set::new(|x: Name| exists|i: int| 0 <= i < v.len() && one_view(#[trigger] v[i]) == x)
}

/// The tuple `t` by the text of its symbols.
pub open spec fn two_view<A: Symbol, B: Symbol>(t: (A, B)) -> (Name, Name) {
    (t.0@, t.1@)
}

/// The tuples of `v` as a set.
pub open spec fn two_set<A: Symbol, B: Symbol>(v: Seq<(A, B)>) -> Set<(Name, Name)> {
    Set::new(|x: (Name, Name)| exists|i: int| 0 <= i < v.len() && two_view(#[trigger] v[i]) == x)
}

/// The tuple `t` by the text of its symbols.
pub open spec fn placed_view<A: Symbol, B: Symbol>(t: (A, B, usize)) -> (Name, Name, usize) {
    (t.0@, t.1@, t.2)
}

/// The tuples of `v` as a set.
pub open spec fn placed_set<A: Symbol,
    B: Symbol>(v: Seq<(A, B, usize)>) -> Set<(Name, Name, usize)> {
    Set::new(|x: (Name, Name, usize)| exists|i: int| 0 <= i < v.len()
        && placed_view(#[trigger] v[i]) == x)
}

/// The tuple `t` by the text of its symbols.
pub open spec fn three_view<A: Symbol, B: Symbol, C: Symbol>(t: (A, B, C)) -> (Name, Name, Name) {
    (t.0@, t.1@, t.2@)
}

/// The tuples of `v` as a set.
pub open spec fn three_set<A: Symbol, B: Symbol,
    C: Symbol>(v: Seq<(A, B, C)>) -> Set<(Name, Name, Name)> {
    Set::new(|x: (Name, Name, Name)| exists|i: int| 0 <= i < v.len()
        && three_view(#[trigger] v[i]) == x)
}

/// The tuple `t` by the text of its symbols.
pub open spec fn four_view<A: Symbol, B: Symbol, C: Symbol,
    D: Symbol>(t: (A, B, C, D)) -> (Name, Name, Name, Name) {
    (t.0@, t.1@, t.2@, t.3@)
}

/// The tuples of `v` as a set.
pub open spec fn four_set<A: Symbol, B: Symbol, C: Symbol,
    D: Symbol>(v: Seq<(A, B, C, D)>) -> Set<(Name, Name, Name, Name)> {
    Set::new(|x: (Name, Name, Name, Name)| exists|i: int| 0 <= i < v.len()
        && four_view(#[trigger] v[i]) == x)
}

/// The tuple `t` by the text of its symbols.
pub open spec fn indexed_view<A: Symbol, C: Symbol>(t: (A, usize, C)) -> (Name, usize, Name) {
    (t.0@, t.1, t.2@)
}

/// The tuples of `v` as a set.
pub open spec fn indexed_set<A: Symbol,
    C: Symbol>(v: Seq<(A, usize, C)>) -> Set<(Name, usize, Name)> {
    Set::new(|x: (Name, usize, Name)| exists|i: int| 0 <= i < v.len()
        && indexed_view(#[trigger] v[i]) == x)
}

/// The suffixes of `v` as a set of accessor sequences.
pub open spec fn suffix_set(v: Seq<(Suffix,)>) -> Set<Seq<Step>> {
    Set::new(|x: Seq<Step>| exists|i: int| 0 <= i < v.len() && (#[trigger] v[i]).0@ == x)
}

impl View for Program {
    type V = Edb;

    open spec fn view(&self) -> Edb {
        Edb {
            procedure: one_set(self.procedure@),
            proc_type: two_set(self.proc_type@),
            proc_sig: two_set(self.proc_sig@),
            entry: one_set(self.entry@),
            in_proc: placed_set(self.in_proc@),
            alloc: three_set(self.alloc@),
            alloc_type: two_set(self.alloc_type@),
            const_assign: three_set(self.const_assign@),
            mov: three_set(self.mov@),
            load_field: four_set(self.load_field@),
            store_field: four_set(self.store_field@),
            load_static: four_set(self.load_static@),
            store_static: four_set(self.store_static@),
            load_index_const: four_set(self.load_index_const@),
            store_index_const: four_set(self.store_index_const@),
            load_index_var: four_set(self.load_index_var@),
            store_index_var: four_set(self.store_index_var@),
            direct_call: two_set(self.direct_call@),
            virtual_call: three_set(self.virtual_call@),
            actual_arg: indexed_set(self.actual_arg@),
            bind_ret: two_set(self.bind_ret@),
            formal: indexed_set(self.formal@),
            ret: two_set(self.ret@),
            direct_subtype: two_set(self.direct_subtype@),
            lookup: three_set(self.lookup@),
            paths: suffix_set(self.paths@),
        }
    }
}

/// The tuples of `a` are those of `b`, one for one.
pub open spec fn same_one<A: Symbol>(a: Seq<(A,)>, b: Seq<(A,)>) -> bool {
    &&& a.len() == b.len()
    &&& forall|i: int| 0 <= i < b.len() ==> one_view(#[trigger] a[i]) == one_view(b[i])
}

/// The tuples of `a` are those of `b`, one for one.
pub open spec fn same_two<A: Symbol, B: Symbol>(a: Seq<(A, B)>, b: Seq<(A, B)>) -> bool {
    &&& a.len() == b.len()
    &&& forall|i: int| 0 <= i < b.len() ==> two_view(#[trigger] a[i]) == two_view(b[i])
}

/// The tuples of `a` are those of `b`, one for one.
pub open spec fn same_placed<A: Symbol, B: Symbol>(
    a: Seq<(A, B, usize)>,
    b: Seq<(A, B, usize)>,
) -> bool {
    &&& a.len() == b.len()
    &&& forall|i: int| 0 <= i < b.len() ==> placed_view(#[trigger] a[i]) == placed_view(b[i])
}

/// The tuples of `a` are those of `b`, one for one.
pub open spec fn same_three<A: Symbol, B: Symbol, C: Symbol>(
    a: Seq<(A, B, C)>,
    b: Seq<(A, B, C)>,
) -> bool {
    &&& a.len() == b.len()
    &&& forall|i: int| 0 <= i < b.len() ==> three_view(#[trigger] a[i]) == three_view(b[i])
}

/// The tuples of `a` are those of `b`, one for one.
pub open spec fn same_four<A: Symbol, B: Symbol, C: Symbol, D: Symbol>(
    a: Seq<(A, B, C, D)>,
    b: Seq<(A, B, C, D)>,
) -> bool {
    &&& a.len() == b.len()
    &&& forall|i: int| 0 <= i < b.len() ==> four_view(#[trigger] a[i]) == four_view(b[i])
}

/// The tuples of `a` are those of `b`, one for one.
pub open spec fn same_indexed<A: Symbol, B: Symbol>(
    a: Seq<(A, usize, B)>,
    b: Seq<(A, usize, B)>,
) -> bool {
    &&& a.len() == b.len()
    &&& forall|i: int| 0 <= i < b.len() ==> indexed_view(#[trigger] a[i]) == indexed_view(b[i])
}

/// The suffixes of `a` are those of `b`, one for one.
pub open spec fn same_suffixes(a: Seq<(Suffix,)>, b: Seq<(Suffix,)>) -> bool {
    &&& a.len() == b.len()
    &&& forall|i: int| 0 <= i < b.len() ==> (#[trigger] a[i]).0@ == b[i].0@
}

impl Program {
    /// Every relation but the vocabulary is that of `p`, tuple for tuple.
    pub open spec fn repeats_facts(&self, p: &Program) -> bool {
        &&& same_one(self.procedure@, p.procedure@)
        &&& same_two(self.proc_type@, p.proc_type@)
        &&& same_two(self.proc_sig@, p.proc_sig@)
        &&& same_one(self.entry@, p.entry@)
        &&& same_placed(self.in_proc@, p.in_proc@)
        &&& same_three(self.alloc@, p.alloc@)
        &&& same_two(self.alloc_type@, p.alloc_type@)
        &&& same_three(self.const_assign@, p.const_assign@)
        &&& same_three(self.mov@, p.mov@)
        &&& same_four(self.load_field@, p.load_field@)
        &&& same_four(self.store_field@, p.store_field@)
        &&& same_four(self.load_static@, p.load_static@)
        &&& same_four(self.store_static@, p.store_static@)
        &&& same_four(self.load_index_const@, p.load_index_const@)
        &&& same_four(self.store_index_const@, p.store_index_const@)
        &&& same_four(self.load_index_var@, p.load_index_var@)
        &&& same_four(self.store_index_var@, p.store_index_var@)
        &&& same_two(self.direct_call@, p.direct_call@)
        &&& same_three(self.virtual_call@, p.virtual_call@)
        &&& same_indexed(self.actual_arg@, p.actual_arg@)
        &&& same_two(self.bind_ret@, p.bind_ret@)
        &&& same_indexed(self.formal@, p.formal@)
        &&& same_two(self.ret@, p.ret@)
        &&& same_two(self.direct_subtype@, p.direct_subtype@)
        &&& same_three(self.lookup@, p.lookup@)
    }

    /// Every relation is that of `p`, tuple for tuple.
    pub open spec fn repeats(&self, p: &Program) -> bool {
        &&& self.repeats_facts(p)
        &&& same_suffixes(self.paths@, p.paths@)
    }
}

proof fn lemma_same_one<A: Symbol>(a: Seq<(A,)>, b: Seq<(A,)>)
    requires
        same_one(a, b),
    ensures
        one_set(a) == one_set(b),
{
    assert forall|x| one_set(a).contains(x) implies #[trigger] one_set(b).contains(x) by {
        let i = choose|i: int| 0 <= i < a.len() && one_view(#[trigger] a[i]) == x;
        assert(one_view(b[i]) == x);
    }
    assert forall|x| one_set(b).contains(x) implies #[trigger] one_set(a).contains(x) by {
        let i = choose|i: int| 0 <= i < b.len() && one_view(#[trigger] b[i]) == x;
        assert(one_view(a[i]) == x);
    }
    assert(one_set(a) =~= one_set(b));
}

proof fn lemma_same_two<A: Symbol, B: Symbol>(a: Seq<(A, B)>, b: Seq<(A, B)>)
    requires
        same_two(a, b),
    ensures
        two_set(a) == two_set(b),
{
    assert forall|x| two_set(a).contains(x) implies #[trigger] two_set(b).contains(x) by {
        let i = choose|i: int| 0 <= i < a.len() && two_view(#[trigger] a[i]) == x;
        assert(two_view(b[i]) == x);
    }
    assert forall|x| two_set(b).contains(x) implies #[trigger] two_set(a).contains(x) by {
        let i = choose|i: int| 0 <= i < b.len() && two_view(#[trigger] b[i]) == x;
        assert(two_view(a[i]) == x);
    }
    assert(two_set(a) =~= two_set(b));
}

proof fn lemma_same_placed<A: Symbol, B: Symbol>(a: Seq<(A, B, usize)>, b: Seq<(A, B, usize)>)
    requires
        same_placed(a, b),
    ensures
        placed_set(a) == placed_set(b),
{
    assert forall|x| placed_set(a).contains(x) implies #[trigger] placed_set(b).contains(x) by {
        let i = choose|i: int| 0 <= i < a.len() && placed_view(#[trigger] a[i]) == x;
        assert(placed_view(b[i]) == x);
    }
    assert forall|x| placed_set(b).contains(x) implies #[trigger] placed_set(a).contains(x) by {
        let i = choose|i: int| 0 <= i < b.len() && placed_view(#[trigger] b[i]) == x;
        assert(placed_view(a[i]) == x);
    }
    assert(placed_set(a) =~= placed_set(b));
}

proof fn lemma_same_three<A: Symbol, B: Symbol, C: Symbol>(a: Seq<(A, B, C)>, b: Seq<(A, B, C)>)
    requires
        same_three(a, b),
    ensures
        three_set(a) == three_set(b),
{
    assert forall|x| three_set(a).contains(x) implies #[trigger] three_set(b).contains(x) by {
        let i = choose|i: int| 0 <= i < a.len() && three_view(#[trigger] a[i]) == x;
        assert(three_view(b[i]) == x);
    }
    assert forall|x| three_set(b).contains(x) implies #[trigger] three_set(a).contains(x) by {
        let i = choose|i: int| 0 <= i < b.len() && three_view(#[trigger] b[i]) == x;
        assert(three_view(a[i]) == x);
    }
    assert(three_set(a) =~= three_set(b));
}

proof fn lemma_same_four<A: Symbol, B: Symbol, C: Symbol, D: Symbol>(
    a: Seq<(A, B, C, D)>,
    b: Seq<(A, B, C, D)>,
)
    requires
        same_four(a, b),
    ensures
        four_set(a) == four_set(b),
{
    assert forall|x| four_set(a).contains(x) implies #[trigger] four_set(b).contains(x) by {
        let i = choose|i: int| 0 <= i < a.len() && four_view(#[trigger] a[i]) == x;
        assert(four_view(b[i]) == x);
    }
    assert forall|x| four_set(b).contains(x) implies #[trigger] four_set(a).contains(x) by {
        let i = choose|i: int| 0 <= i < b.len() && four_view(#[trigger] b[i]) == x;
        assert(four_view(a[i]) == x);
    }
    assert(four_set(a) =~= four_set(b));
}

proof fn lemma_same_indexed<A: Symbol, B: Symbol>(a: Seq<(A, usize, B)>, b: Seq<(A, usize, B)>)
    requires
        same_indexed(a, b),
    ensures
        indexed_set(a) == indexed_set(b),
{
    assert forall|x| indexed_set(a).contains(x) implies #[trigger] indexed_set(b).contains(x) by {
        let i = choose|i: int| 0 <= i < a.len() && indexed_view(#[trigger] a[i]) == x;
        assert(indexed_view(b[i]) == x);
    }
    assert forall|x| indexed_set(b).contains(x) implies #[trigger] indexed_set(a).contains(x) by {
        let i = choose|i: int| 0 <= i < b.len() && indexed_view(#[trigger] b[i]) == x;
        assert(indexed_view(a[i]) == x);
    }
    assert(indexed_set(a) =~= indexed_set(b));
}

impl Program {
    /// What is the same tuple for tuple is the same as sets.
    pub proof fn lemma_repeats(&self, p: &Program)
        requires
            self.repeats_facts(p),
        ensures
            self@ == (Edb { paths: self@.paths, ..p@ }),
    {
        lemma_same_one(self.procedure@, p.procedure@);
        lemma_same_two(self.proc_type@, p.proc_type@);
        lemma_same_two(self.proc_sig@, p.proc_sig@);
        lemma_same_one(self.entry@, p.entry@);
        lemma_same_placed(self.in_proc@, p.in_proc@);
        lemma_same_three(self.alloc@, p.alloc@);
        lemma_same_two(self.alloc_type@, p.alloc_type@);
        lemma_same_three(self.const_assign@, p.const_assign@);
        lemma_same_three(self.mov@, p.mov@);
        lemma_same_four(self.load_field@, p.load_field@);
        lemma_same_four(self.store_field@, p.store_field@);
        lemma_same_four(self.load_static@, p.load_static@);
        lemma_same_four(self.store_static@, p.store_static@);
        lemma_same_four(self.load_index_const@, p.load_index_const@);
        lemma_same_four(self.store_index_const@, p.store_index_const@);
        lemma_same_four(self.load_index_var@, p.load_index_var@);
        lemma_same_four(self.store_index_var@, p.store_index_var@);
        lemma_same_two(self.direct_call@, p.direct_call@);
        lemma_same_three(self.virtual_call@, p.virtual_call@);
        lemma_same_indexed(self.actual_arg@, p.actual_arg@);
        lemma_same_two(self.bind_ret@, p.bind_ret@);
        lemma_same_indexed(self.formal@, p.formal@);
        lemma_same_two(self.ret@, p.ret@);
        lemma_same_two(self.direct_subtype@, p.direct_subtype@);
        lemma_same_three(self.lookup@, p.lookup@);
    }
}

/// A copy of a relation.
fn copy_one<A: Symbol>(v: &Vec<(A,)>) -> (r: Vec<(A,)>)
    ensures
        r@.len() == v@.len(),
        forall|i: int| 0 <= i < v@.len() ==> one_view(#[trigger] r@[i]) == one_view(v@[i]),
        one_set(r@) == one_set(v@),
{
    let mut r: Vec<(A,)> = Vec::new();
    let mut i: usize = 0;
    while i < v.len()
        invariant
            i <= v@.len(),
            r@.len() == i,
            forall|j: int| 0 <= j < i ==> one_view(#[trigger] r@[j]) == one_view(v@[j]),
        decreases v@.len() - i,
    {
        let x = (A::of(v[i].0.text().clone()),);
        r.push(x);
        i += 1;
    }
    proof {
        assert(one_set(r@) =~= one_set(v@)) by {
            assert forall|x| one_set(v@).contains(x) implies #[trigger] one_set(r@).contains(x) by {
                let i = choose|i: int| 0 <= i < v@.len() && one_view(#[trigger] v@[i]) == x;
                assert(one_view(r@[i]) == x);
            }
            assert forall|x| #[trigger] one_set(r@).contains(x) implies one_set(v@).contains(x) by {
                let i = choose|i: int| 0 <= i < r@.len() && one_view(#[trigger] r@[i]) == x;
                assert(one_view(v@[i]) == x);
            }
        }
    }
    r
}

/// A copy of a relation.
pub fn copy_two<A: Symbol, B: Symbol>(v: &Vec<(A, B)>) -> (r: Vec<(A, B)>)
    ensures
        r@.len() == v@.len(),
        forall|i: int| 0 <= i < v@.len() ==> two_view(#[trigger] r@[i]) == two_view(v@[i]),
        two_set(r@) == two_set(v@),
{
    let mut r: Vec<(A, B)> = Vec::new();
    let mut i: usize = 0;
    while i < v.len()
        invariant
            i <= v@.len(),
            r@.len() == i,
            forall|j: int| 0 <= j < i ==> two_view(#[trigger] r@[j]) == two_view(v@[j]),
        decreases v@.len() - i,
    {
        let x = (A::of(v[i].0.text().clone()), B::of(v[i].1.text().clone()));
        r.push(x);
        i += 1;
    }
    proof {
        assert(two_set(r@) =~= two_set(v@)) by {
            assert forall|x| two_set(v@).contains(x) implies #[trigger] two_set(r@).contains(x) by {
                let i = choose|i: int| 0 <= i < v@.len() && two_view(#[trigger] v@[i]) == x;
                assert(two_view(r@[i]) == x);
            }
            assert forall|x| #[trigger] two_set(r@).contains(x) implies two_set(v@).contains(x) by {
                let i = choose|i: int| 0 <= i < r@.len() && two_view(#[trigger] r@[i]) == x;
                assert(two_view(v@[i]) == x);
            }
        }
    }
    r
}

/// A copy of a relation.
fn copy_placed<A: Symbol, B: Symbol>(v: &Vec<(A, B, usize)>) -> (r: Vec<(A, B, usize)>)
    ensures
        r@.len() == v@.len(),
        forall|i: int| 0 <= i < v@.len() ==> placed_view(#[trigger] r@[i]) == placed_view(v@[i]),
        placed_set(r@) == placed_set(v@),
{
    let mut r: Vec<(A, B, usize)> = Vec::new();
    let mut i: usize = 0;
    while i < v.len()
        invariant
            i <= v@.len(),
            r@.len() == i,
            forall|j: int| 0 <= j < i ==> placed_view(#[trigger] r@[j]) == placed_view(v@[j]),
        decreases v@.len() - i,
    {
        let x = (A::of(v[i].0.text().clone()), B::of(v[i].1.text().clone()), v[i].2);
        r.push(x);
        i += 1;
    }
    proof {
        assert(placed_set(r@) =~= placed_set(v@)) by {
            assert forall|x| placed_set(v@).contains(x)
                implies #[trigger] placed_set(r@).contains(x) by {
                let i = choose|i: int| 0 <= i < v@.len() && placed_view(#[trigger] v@[i]) == x;
                assert(placed_view(r@[i]) == x);
            }
            assert forall|x| #[trigger] placed_set(r@).contains(x)
                implies placed_set(v@).contains(x) by {
                let i = choose|i: int| 0 <= i < r@.len() && placed_view(#[trigger] r@[i]) == x;
                assert(placed_view(v@[i]) == x);
            }
        }
    }
    r
}

/// A copy of a relation.
pub fn copy_three<A: Symbol, B: Symbol, C: Symbol>(v: &Vec<(A, B, C)>) -> (r: Vec<(A, B, C)>)
    ensures
        r@.len() == v@.len(),
        forall|i: int| 0 <= i < v@.len() ==> three_view(#[trigger] r@[i]) == three_view(v@[i]),
        three_set(r@) == three_set(v@),
{
    let mut r: Vec<(A, B, C)> = Vec::new();
    let mut i: usize = 0;
    while i < v.len()
        invariant
            i <= v@.len(),
            r@.len() == i,
            forall|j: int| 0 <= j < i ==> three_view(#[trigger] r@[j]) == three_view(v@[j]),
        decreases v@.len() - i,
    {
        let x = (A::of(v[i].0.text().clone()), B::of(v[i].1.text().clone()),
            C::of(v[i].2.text().clone()));
        r.push(x);
        i += 1;
    }
    proof {
        assert(three_set(r@) =~= three_set(v@)) by {
            assert forall|x| three_set(v@).contains(x)
                implies #[trigger] three_set(r@).contains(x) by {
                let i = choose|i: int| 0 <= i < v@.len() && three_view(#[trigger] v@[i]) == x;
                assert(three_view(r@[i]) == x);
            }
            assert forall|x| #[trigger] three_set(r@).contains(x)
                implies three_set(v@).contains(x) by {
                let i = choose|i: int| 0 <= i < r@.len() && three_view(#[trigger] r@[i]) == x;
                assert(three_view(v@[i]) == x);
            }
        }
    }
    r
}

/// A copy of a relation.
fn copy_four<A: Symbol, B: Symbol, C: Symbol,
    D: Symbol>(v: &Vec<(A, B, C, D)>) -> (r: Vec<(A, B, C, D)>)
    ensures
        r@.len() == v@.len(),
        forall|i: int| 0 <= i < v@.len() ==> four_view(#[trigger] r@[i]) == four_view(v@[i]),
        four_set(r@) == four_set(v@),
{
    let mut r: Vec<(A, B, C, D)> = Vec::new();
    let mut i: usize = 0;
    while i < v.len()
        invariant
            i <= v@.len(),
            r@.len() == i,
            forall|j: int| 0 <= j < i ==> four_view(#[trigger] r@[j]) == four_view(v@[j]),
        decreases v@.len() - i,
    {
        let x = (
            A::of(v[i].0.text().clone()),
            B::of(v[i].1.text().clone()),
            C::of(v[i].2.text().clone()),
            D::of(v[i].3.text().clone()),
        );
        r.push(x);
        i += 1;
    }
    proof {
        assert(four_set(r@) =~= four_set(v@)) by {
            assert forall|x| four_set(v@).contains(x)
                implies #[trigger] four_set(r@).contains(x) by {
                let i = choose|i: int| 0 <= i < v@.len() && four_view(#[trigger] v@[i]) == x;
                assert(four_view(r@[i]) == x);
            }
            assert forall|x| #[trigger] four_set(r@).contains(x)
                implies four_set(v@).contains(x) by {
                let i = choose|i: int| 0 <= i < r@.len() && four_view(#[trigger] r@[i]) == x;
                assert(four_view(v@[i]) == x);
            }
        }
    }
    r
}

/// A copy of a relation.
fn copy_indexed<A: Symbol, B: Symbol>(v: &Vec<(A, usize, B)>) -> (r: Vec<(A, usize, B)>)
    ensures
        r@.len() == v@.len(),
        forall|i: int| 0 <= i < v@.len() ==> indexed_view(#[trigger] r@[i]) == indexed_view(v@[i]),
        indexed_set(r@) == indexed_set(v@),
{
    let mut r: Vec<(A, usize, B)> = Vec::new();
    let mut i: usize = 0;
    while i < v.len()
        invariant
            i <= v@.len(),
            r@.len() == i,
            forall|j: int| 0 <= j < i ==> indexed_view(#[trigger] r@[j]) == indexed_view(v@[j]),
        decreases v@.len() - i,
    {
        let x = (A::of(v[i].0.text().clone()), v[i].1, B::of(v[i].2.text().clone()));
        r.push(x);
        i += 1;
    }
    proof {
        assert(indexed_set(r@) =~= indexed_set(v@)) by {
            assert forall|x| indexed_set(v@).contains(x)
                implies #[trigger] indexed_set(r@).contains(x) by {
                let i = choose|i: int| 0 <= i < v@.len() && indexed_view(#[trigger] v@[i]) == x;
                assert(indexed_view(r@[i]) == x);
            }
            assert forall|x| #[trigger] indexed_set(r@).contains(x)
                implies indexed_set(v@).contains(x) by {
                let i = choose|i: int| 0 <= i < r@.len() && indexed_view(#[trigger] r@[i]) == x;
                assert(indexed_view(v@[i]) == x);
            }
        }
    }
    r
}

/// A copy of a vocabulary.
fn copy_suffixes(v: &Vec<(Suffix,)>) -> (r: Vec<(Suffix,)>)
    ensures
        r@.len() == v@.len(),
        forall|i: int| 0 <= i < v@.len() ==> (#[trigger] r@[i]).0@ == v@[i].0@,
        suffix_set(r@) == suffix_set(v@),
{
    let mut r: Vec<(Suffix,)> = Vec::new();
    let mut i: usize = 0;
    while i < v.len()
        invariant
            i <= v@.len(),
            r@.len() == i,
            forall|j: int| 0 <= j < i ==> (#[trigger] r@[j]).0@ == v@[j].0@,
        decreases v@.len() - i,
    {
        r.push((v[i].0.clone(),));
        i += 1;
    }
    proof {
        assert(suffix_set(r@) =~= suffix_set(v@)) by {
            assert forall|x| suffix_set(v@).contains(x)
                implies #[trigger] suffix_set(r@).contains(x) by {
                let i = choose|i: int| 0 <= i < v@.len() && (#[trigger] v@[i]).0@ == x;
                assert(r@[i].0@ == x);
            }
            assert forall|x| #[trigger] suffix_set(r@).contains(x)
                implies suffix_set(v@).contains(x) by {
                let i = choose|i: int| 0 <= i < r@.len() && (#[trigger] r@[i]).0@ == x;
                assert(v@[i].0@ == x);
            }
        }
    }
    r
}

impl Clone for Program {
    fn clone(&self) -> (r: Self)
        ensures
            r.repeats(self),
            r@ == self@,
    {
        Program {
            procedure: copy_one(&self.procedure),
            proc_type: copy_two(&self.proc_type),
            proc_sig: copy_two(&self.proc_sig),
            entry: copy_one(&self.entry),
            in_proc: copy_placed(&self.in_proc),
            alloc: copy_three(&self.alloc),
            alloc_type: copy_two(&self.alloc_type),
            const_assign: copy_three(&self.const_assign),
            mov: copy_three(&self.mov),
            load_field: copy_four(&self.load_field),
            store_field: copy_four(&self.store_field),
            load_static: copy_four(&self.load_static),
            store_static: copy_four(&self.store_static),
            load_index_const: copy_four(&self.load_index_const),
            store_index_const: copy_four(&self.store_index_const),
            load_index_var: copy_four(&self.load_index_var),
            store_index_var: copy_four(&self.store_index_var),
            direct_call: copy_two(&self.direct_call),
            virtual_call: copy_three(&self.virtual_call),
            actual_arg: copy_indexed(&self.actual_arg),
            bind_ret: copy_two(&self.bind_ret),
            formal: copy_indexed(&self.formal),
            ret: copy_two(&self.ret),
            direct_subtype: copy_two(&self.direct_subtype),
            lookup: copy_three(&self.lookup),
            paths: copy_suffixes(&self.paths),
        }
    }
}

impl Default for Program {
    fn default() -> (r: Self)
        ensures
            r.procedure@.len() == 0,
            r.proc_type@.len() == 0,
            r.proc_sig@.len() == 0,
            r.entry@.len() == 0,
            r.in_proc@.len() == 0,
            r.alloc@.len() == 0,
            r.alloc_type@.len() == 0,
            r.const_assign@.len() == 0,
            r.mov@.len() == 0,
            r.load_field@.len() == 0,
            r.store_field@.len() == 0,
            r.load_static@.len() == 0,
            r.store_static@.len() == 0,
            r.load_index_const@.len() == 0,
            r.store_index_const@.len() == 0,
            r.load_index_var@.len() == 0,
            r.store_index_var@.len() == 0,
            r.direct_call@.len() == 0,
            r.virtual_call@.len() == 0,
            r.actual_arg@.len() == 0,
            r.bind_ret@.len() == 0,
            r.formal@.len() == 0,
            r.ret@.len() == 0,
            r.direct_subtype@.len() == 0,
            r.lookup@.len() == 0,
            r.paths@.len() == 0,
    {
        Program {
            procedure: Vec::new(),
            proc_type: Vec::new(),
            proc_sig: Vec::new(),
            entry: Vec::new(),
            in_proc: Vec::new(),
            alloc: Vec::new(),
            alloc_type: Vec::new(),
            const_assign: Vec::new(),
            mov: Vec::new(),
            load_field: Vec::new(),
            store_field: Vec::new(),
            load_static: Vec::new(),
            store_static: Vec::new(),
            load_index_const: Vec::new(),
            store_index_const: Vec::new(),
            load_index_var: Vec::new(),
            store_index_var: Vec::new(),
            direct_call: Vec::new(),
            virtual_call: Vec::new(),
            actual_arg: Vec::new(),
            bind_ret: Vec::new(),
            formal: Vec::new(),
            ret: Vec::new(),
            direct_subtype: Vec::new(),
            lookup: Vec::new(),
            paths: Vec::new(),
        }
    }
}

impl Program {
    /// The input facts are already the whole model of a program with no rules,
    /// so evaluating it changes nothing.
    pub fn run(&mut self)
        ensures
            *final(self) == *old(self),
    {
    }
}

} // verus!
