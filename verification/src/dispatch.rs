//! Working out dispatch from the notes: which implementation each type selects for each
//! signature that some call uses, and which procedures nothing calls.
use vstd::prelude::*;

use crate::codes::Names;
use crate::hierarchy::{self, Hierarchy};
use crate::ir::Name;
use crate::ledger::{self, Entry, Kind, Ledger};
use crate::lower;
use crate::rows::{self, Cell, Datum, Row};
use crate::text::{cat, cat3};

verus! {

// ---------------------------------------------------------------------------
// What dispatch is
// ---------------------------------------------------------------------------

/// A receiver declared `cls` may have class `t`, which inherits `p` for the method.
pub open spec fn class_target(
    log: Seq<Entry>,
    cls: Name,
    name: Name,
    desc: Name,
    t: Name,
    p: Name,
) -> bool {
    let (decls, edges) = (ledger::noted(log, Kind::Declares), ledger::noted(log, Kind::Extends));
    hierarchy::below(edges, cls, t) && hierarchy::inherited(decls, edges, t, name, desc) == Some(p)
}

/// Some class that a receiver declared `cls` may have has the method.
pub open spec fn class_known(log: Seq<Entry>, cls: Name, name: Name, desc: Name) -> bool {
    exists|t: Name, p: Name| class_target(log, cls, name, desc, t, p)
}

/// What a call on the declared class selects. Where the hierarchy knows nothing of the
/// class, with the fallback, every class that declares the method is a candidate.
pub open spec fn class_selects(
    log: Seq<Entry>,
    fallback: bool,
    cls: Name,
    name: Name,
    desc: Name,
    t: Name,
    p: Name,
) -> bool {
    ||| class_target(log, cls, name, desc, t, p)
    ||| fallback && !class_known(log, cls, name, desc) && ledger::relation(
        log,
        Kind::Declares,
    ).contains(rows::four_row(t, name, desc, p))
}

/// Some call on a declared class dispatches the signature so.
pub open spec fn by_class(log: Seq<Entry>, fallback: bool, t: Name, sig: Name, p: Name) -> bool {
    exists|cls: Name, name: Name, desc: Name|
        ledger::relation(log, Kind::ClassSite).contains(#[trigger] rows::three_row(cls, name, desc))
            && sig == lower::class_sig(cls, name, desc) && class_selects(
            log,
            fallback,
            cls,
            name,
            desc,
            t,
            p,
        )
}

/// Some call by name alone does: every class that has the method is a candidate.
pub open spec fn by_name(log: Seq<Entry>, t: Name, sig: Name, p: Name) -> bool {
    exists|name: Name|
        ledger::relation(log, Kind::LuaSite).contains(#[trigger] rows::one_row(name)) && sig
            == lower::lua_sig(name) && ledger::relation(log, Kind::Declares).contains(
            rows::four_row(t, name, Seq::empty(), p),
        )
}

/// Some call through a pointer does: whatever had its address taken is a candidate, and
/// the type of a pointer is the function it points at.
pub open spec fn by_pointer(log: Seq<Entry>, t: Name, sig: Name, p: Name) -> bool {
    exists|own: Name|
        ledger::relation(log, Kind::PointerSite).contains(#[trigger] rows::one_row(own)) && sig
            == lower::pointer_sig(own) && ledger::relation(log, Kind::Taken).contains(
            rows::one_row(p),
        ) && t == lower::pointer_type(p)
}

/// Dispatching `sig` on type `t` selects `p`.
pub open spec fn selects(log: Seq<Entry>, fallback: bool, t: Name, sig: Name, p: Name) -> bool {
    ||| by_class(log, fallback, t, sig, p)
    ||| by_name(log, t, sig, p)
    ||| by_pointer(log, t, sig, p)
}

pub open spec fn lookup(log: Seq<Entry>, fallback: bool) -> Set<Seq<Datum>> {
    Set::new(
        |row: Seq<Datum>|
            exists|t: Name, sig: Name, p: Name|
                row == #[trigger] rows::three_row(t, sig, p) && selects(log, fallback, t, sig, p),
    )
}

/// Each procedure with the signatures it implements for some call.
pub open spec fn proc_sig(log: Seq<Entry>, fallback: bool) -> Set<Seq<Datum>> {
    Set::new(
        |row: Seq<Datum>|
            exists|t: Name, sig: Name, p: Name|
                row == rows::two_row(p, sig) && #[trigger] selects(log, fallback, t, sig, p),
    )
}

/// Some call names `p`, or may dispatch to it.
pub open spec fn called(log: Seq<Entry>, fallback: bool, p: Name) -> bool {
    ||| exists|s: Name|
        ledger::relation(log, Kind::DirectCall).contains(#[trigger] rows::two_row(s, p))
    ||| exists|t: Name, sig: Name| selects(log, fallback, t, sig, p)
}

/// The procedures with a body that nothing calls.
pub open spec fn entry(log: Seq<Entry>, fallback: bool) -> Set<Seq<Datum>> {
    Set::new(
        |row: Seq<Datum>|
            exists|p: Name|
                row == #[trigger] rows::one_row(p) && ledger::relation(
                    log,
                    Kind::Procedure,
                ).contains(row) && !called(log, fallback, p),
    )
}

// ---------------------------------------------------------------------------
// Working it out
// ---------------------------------------------------------------------------

/// The rows `[t, sig, p]` of the pairs of a list.
fn add_targets(out: &mut Vec<Row>, sig: &String, targets: &Vec<(String, String)>)
    ensures
        forall|row: Seq<Datum>| #[trigger]
            rows::views(final(out)@).contains(row) <==> rows::views(old(out)@).contains(row) || (
            exists|t: Name, p: Name|
                row == #[trigger] rows::three_row(t, sig@, p) && hierarchy::pairs_up(
                    targets@,
                    t,
                    p,
                )),
{
    let ghost start = rows::views(out@);
    let mut i: usize = 0;
    proof {
        assert forall|row: Seq<Datum>| #[trigger]
            rows::views(out@).contains(row) <==> start.contains(row) || (exists|t: Name, p: Name|
                row == #[trigger] rows::three_row(t, sig@, p) && hierarchy::pairs_up(
                    targets@.take(0),
                    t,
                    p,
                )) by {}
    }
    while i < targets.len()
        invariant
            i <= targets@.len(),
            forall|row: Seq<Datum>| #[trigger]
                rows::views(out@).contains(row) <==> start.contains(row) || (exists|
                    t: Name,
                    p: Name,
                |
                    row == #[trigger] rows::three_row(t, sig@, p) && hierarchy::pairs_up(
                        targets@.take(i as int),
                        t,
                        p,
                    )),
        decreases targets@.len() - i,
    {
        let ghost o0 = rows::views(out@);
        let ghost x = targets@[i as int];
        let ghost fresh = rows::three_row(x.0@, sig@, x.1@);
        let row = Row(
            vec![
                Cell::Text(targets[i].0.clone()),
                Cell::Text(sig.clone()),
                Cell::Text(targets[i].1.clone()),
            ],
        );
        proof {
            assert(row@ =~= fresh);
        }
        out.push(row);
        proof {
            assert(rows::views(out@) =~= o0.push(fresh));
            assert(targets@.take(i + 1) =~= targets@.take(i as int).push(x));
            hierarchy::lemma_pair_pushed(targets@.take(i as int), x);
            assert forall|row: Seq<Datum>| #[trigger]
                rows::views(out@).contains(row) <==> start.contains(row) || (exists|
                    t: Name,
                    p: Name,
                |
                    row == #[trigger] rows::three_row(t, sig@, p) && hierarchy::pairs_up(
                        targets@.take(i + 1),
                        t,
                        p,
                    )) by {
                lemma_pushed(o0, fresh, row);
                if row == fresh {
                    assert(hierarchy::pairs_up(targets@.take(i + 1), x.0@, x.1@));
                }
                if o0.contains(row) && !start.contains(row) {
                    let (t, p) = choose|t: Name, p: Name|
                        row == #[trigger] rows::three_row(t, sig@, p) && hierarchy::pairs_up(
                            targets@.take(i as int),
                            t,
                            p,
                        );
                    assert(hierarchy::pairs_up(targets@.take(i + 1), t, p));
                }
                if exists|t: Name, p: Name|
                    row == #[trigger] rows::three_row(t, sig@, p) && hierarchy::pairs_up(
                        targets@.take(i + 1),
                        t,
                        p,
                    ) {
                    let (t, p) = choose|t: Name, p: Name|
                        row == #[trigger] rows::three_row(t, sig@, p) && hierarchy::pairs_up(
                            targets@.take(i + 1),
                            t,
                            p,
                        );
                    if hierarchy::pairs_up(targets@.take(i as int), t, p) {
                        assert(o0.contains(row));
                    }
                }
            }
        }
        i += 1;
    }
    proof {
        assert(targets@.take(i as int) =~= targets@);
    }
}

pub proof fn lemma_pushed(v: Seq<Seq<Datum>>, x: Seq<Datum>, row: Seq<Datum>)
    ensures
        v.push(x).contains(row) <==> v.contains(row) || row == x,
{
    let w = v.push(x);
    if v.contains(row) {
        let i = choose|i: int| 0 <= i < v.len() && v[i] == row;
        assert(w[i] == row);
    }
    if row == x {
        assert(w[v.len() as int] == row);
    }
    if w.contains(row) {
        let i = choose|i: int| 0 <= i < w.len() && w[i] == row;
        if i < v.len() {
            assert(v[i] == row);
        }
    }
}

proof fn lemma_one(a: Name, x: Name)
    requires
        rows::one_row(a) == rows::one_row(x),
    ensures
        a == x,
{
    let (l, r) = (rows::one_row(a), rows::one_row(x));
    assert(l[0] == Datum::Text(a) && r[0] == Datum::Text(x));
}

/// What a call on the declared class selects.
fn class_targets(
    h: &Hierarchy,
    fallback: bool,
    cls: &String,
    name: &String,
    desc: &String,
    Ghost(log): Ghost<Seq<Entry>>,
) -> (r: Vec<(String, String)>)
    requires
        h.wf(),
        h.decls() == ledger::noted(log, Kind::Declares),
        h.edges() == ledger::noted(log, Kind::Extends),
    ensures
        forall|t: Name, p: Name| #[trigger]
            hierarchy::pairs_up(r@, t, p) <==> class_selects(
                log,
                fallback,
                cls@,
                name@,
                desc@,
                t,
                p,
            ),
{
    let subs = h.subtypes(cls);
    let mut r: Vec<(String, String)> = Vec::new();
    let mut i: usize = 0;
    while i < subs.len()
        invariant
            h.wf(),
            h.decls() == ledger::noted(log, Kind::Declares),
            h.edges() == ledger::noted(log, Kind::Extends),
            i <= subs@.len(),
            forall|t: Name, p: Name| #[trigger]
                hierarchy::pairs_up(r@, t, p) <==> subs@.take(i as int).contains(t)
                    && hierarchy::inherited(h.decls(), h.edges(), t, name@, desc@) == Some(p),
        decreases subs@.len() - i,
    {
        let ghost r0 = r@;
        let t = subs.text(i).clone();
        let ghost t0 = t@;
        let ghost (was, now) = (subs@.take(i as int), subs@.take(i + 1));
        proof {
            assert(now =~= was.push(t0));
            assert forall|x: Name| #[trigger] now.contains(x) <==> was.contains(x) || x == t0 by {
                if was.contains(x) {
                    let j = choose|j: int| 0 <= j < was.len() && was[j] == x;
                    assert(now[j] == x);
                }
                if x == t0 {
                    assert(now[i as int] == x);
                }
                if now.contains(x) {
                    let j = choose|j: int| 0 <= j < now.len() && now[j] == x;
                    if j < i {
                        assert(was[j] == x);
                    }
                }
            }
        }
        match h.resolve(&t, name, desc) {
            Some(p) => {
                let x = (t, p);
                r.push(x);
                proof {
                    hierarchy::lemma_pair_pushed(r0, x);
                }
            },
            None => {},
        }
        i += 1;
    }
    proof {
        assert(subs@.take(i as int) =~= subs@);
        assert forall|t: Name, p: Name| #[trigger]
            hierarchy::pairs_up(r@, t, p) <==> class_target(log, cls@, name@, desc@, t, p) by {
            assert(subs@.contains(t) <==> hierarchy::below(h.edges(), cls@, t));
        }
    }
    if r.len() > 0 {
        proof {
            assert(hierarchy::pairs_up(r@, r@[0].0@, r@[0].1@));
            assert(class_known(log, cls@, name@, desc@));
        }
        return r;
    }
    proof {
        assert(!class_known(log, cls@, name@, desc@)) by {
            if class_known(log, cls@, name@, desc@) {
                let (t, p) = choose|t: Name, p: Name|
                    class_target(log, cls@, name@, desc@, t, p);
                assert(hierarchy::pairs_up(r@, t, p));
            }
        }
    }
    if fallback {
        let all = h.declarers(name, desc);
        proof {
            assert forall|t: Name, p: Name| #[trigger]
                hierarchy::pairs_up(all@, t, p) <==> class_selects(
                    log,
                    fallback,
                    cls@,
                    name@,
                    desc@,
                    t,
                    p,
                ) by {
                let row = rows::four_row(t, name@, desc@, p);
                ledger::lemma_noted(log, Kind::Declares, row);
                assert(class_target(log, cls@, name@, desc@, t, p) ==> class_known(
                    log,
                    cls@,
                    name@,
                    desc@,
                ));
            }
        }
        all
    } else {
        r
    }
}

spec fn class_part(
    log: Seq<Entry>,
    fallback: bool,
    sites: Seq<Seq<Datum>>,
    n: int,
    row: Seq<Datum>,
) -> bool {
    exists|i: int, t: Name, p: Name|
        0 <= i < n && row == rows::three_row(
            t,
            lower::class_sig(sites[i][0].text(), sites[i][1].text(), sites[i][2].text()),
            p,
        ) && #[trigger] class_selects(
            log,
            fallback,
            sites[i][0].text(),
            sites[i][1].text(),
            sites[i][2].text(),
            t,
            p,
        )
}

fn class_lookups(ledger: &Ledger, h: &Hierarchy, fallback: bool) -> (r: Vec<Row>)
    requires
        ledger::shapely(ledger@),
        h.wf(),
        h.decls() == ledger::noted(ledger@, Kind::Declares),
        h.edges() == ledger::noted(ledger@, Kind::Extends),
    ensures
        forall|row: Seq<Datum>| #[trigger]
            rows::views(r@).contains(row) <==> exists|t: Name, sig: Name, p: Name|
                row == #[trigger] rows::three_row(t, sig, p) && by_class(
                    ledger@,
                    fallback,
                    t,
                    sig,
                    p,
                ),
{
    let ghost log = ledger@;
    let sites = ledger.relation(Kind::ClassSite);
    let ghost all = rows::views(sites@);
    let mut r: Vec<Row> = Vec::new();
    let mut i: usize = 0;
    while i < sites.len()
        invariant
            i <= sites@.len(),
            h.wf(),
            h.decls() == ledger::noted(log, Kind::Declares),
            h.edges() == ledger::noted(log, Kind::Extends),
            all == rows::views(sites@),
            rows::all_fit(all, rows::three_shape()),
            forall|row: Seq<Datum>| #[trigger]
                rows::views(r@).contains(row) <==> class_part(log, fallback, all, i as int, row),
        decreases sites@.len() - i,
    {
        let ghost site = all[i as int];
        let ghost r0 = rows::views(r@);
        proof {
            assert(site == sites@[i as int]@);
            assert(rows::fits(site, rows::three_shape()));
            assert(site[0].is_text() && site[1].is_text() && site[2].is_text());
        }
        let cls = sites[i].text(0);
        let name = sites[i].text(1);
        let desc = sites[i].text(2);
        let sig = cat(cat3(cls.as_str(), "->", name.as_str()).as_str(), desc.as_str());
        let targets = class_targets(h, fallback, cls, name, desc, Ghost(log));
        add_targets(&mut r, &sig, &targets);
        proof {
            assert(sig@ == lower::class_sig(site[0].text(), site[1].text(), site[2].text()));
            assert forall|row: Seq<Datum>| #[trigger]
                rows::views(r@).contains(row) <==> class_part(log, fallback, all, i + 1, row) by {
                if r0.contains(row) {
                    assert(class_part(log, fallback, all, i as int, row));
                }
                if exists|t: Name, p: Name|
                    row == #[trigger] rows::three_row(t, sig@, p) && hierarchy::pairs_up(
                        targets@,
                        t,
                        p,
                    ) {
                    let (t, p) = choose|t: Name, p: Name|
                        row == #[trigger] rows::three_row(t, sig@, p) && hierarchy::pairs_up(
                            targets@,
                            t,
                            p,
                        );
                    assert(class_selects(
                        log,
                        fallback,
                        all[i as int][0].text(),
                        all[i as int][1].text(),
                        all[i as int][2].text(),
                        t,
                        p,
                    ));
                }
                if class_part(log, fallback, all, i + 1, row) {
                    let (j, t, p) = choose|j: int, t: Name, p: Name|
                        0 <= j < i + 1 && row == rows::three_row(
                            t,
                            lower::class_sig(all[j][0].text(), all[j][1].text(), all[j][2].text()),
                            p,
                        ) && #[trigger] class_selects(
                            log,
                            fallback,
                            all[j][0].text(),
                            all[j][1].text(),
                            all[j][2].text(),
                            t,
                            p,
                        );
                    if j < i {
                        assert(class_part(log, fallback, all, i as int, row));
                    } else {
                        assert(hierarchy::pairs_up(targets@, t, p));
                    }
                }
            }
        }
        i += 1;
    }
    proof {
        assert forall|row: Seq<Datum>| #[trigger]
            rows::views(r@).contains(row) <==> exists|t: Name, sig: Name, p: Name|
                row == #[trigger] rows::three_row(t, sig, p)
                    && by_class(log, fallback, t, sig, p) by {
            if class_part(log, fallback, all, all.len() as int, row) {
                let (j, t, p) = choose|j: int, t: Name, p: Name|
                    0 <= j < all.len() && row == rows::three_row(
                        t,
                        lower::class_sig(all[j][0].text(), all[j][1].text(), all[j][2].text()),
                        p,
                    ) && #[trigger] class_selects(
                        log,
                        fallback,
                        all[j][0].text(),
                        all[j][1].text(),
                        all[j][2].text(),
                        t,
                        p,
                    );
                let (a, b, c) = (all[j][0].text(), all[j][1].text(), all[j][2].text());
                assert(rows::fits(all[j], rows::three_shape()));
                assert(all[j][0].is_text() && all[j][1].is_text() && all[j][2].is_text());
                assert(all[j] =~= rows::three_row(a, b, c));
                assert(all.contains(all[j]));
                assert(by_class(log, fallback, t, lower::class_sig(a, b, c), p));
            }
            if exists|t: Name, sig: Name, p: Name|
                row == #[trigger] rows::three_row(t, sig, p) && by_class(log, fallback, t, sig, p) {
                let (t, sig, p) = choose|t: Name, sig: Name, p: Name|
                    row == #[trigger] rows::three_row(t, sig, p) && by_class(
                        log,
                        fallback,
                        t,
                        sig,
                        p,
                    );
                let (a, b, c) = choose|a: Name, b: Name, c: Name|
                    ledger::relation(log, Kind::ClassSite).contains(
                        #[trigger] rows::three_row(a, b, c),
                    ) && sig == lower::class_sig(a, b, c) && class_selects(
                        log,
                        fallback,
                        a,
                        b,
                        c,
                        t,
                        p,
                    );
                let site = rows::three_row(a, b, c);
                assert(all.contains(site));
                let j = choose|j: int| 0 <= j < all.len() && all[j] == site;
                assert(all[j][0].text() == a && all[j][1].text() == b && all[j][2].text() == c);
                assert(class_part(log, fallback, all, all.len() as int, row));
            }
        }
    }
    r
}

spec fn name_part(log: Seq<Entry>, sites: Seq<Seq<Datum>>, n: int, row: Seq<Datum>) -> bool {
    exists|i: int, t: Name, p: Name|
        0 <= i < n && row == rows::three_row(t, lower::lua_sig(sites[i][0].text()), p)
            && ledger::relation(log, Kind::Declares).contains(
            #[trigger] rows::four_row(t, sites[i][0].text(), Seq::empty(), p),
        )
}

fn name_lookups(ledger: &Ledger, h: &Hierarchy) -> (r: Vec<Row>)
    requires
        ledger::shapely(ledger@),
        h.wf(),
        h.decls() == ledger::noted(ledger@, Kind::Declares),
    ensures
        forall|row: Seq<Datum>| #[trigger]
            rows::views(r@).contains(row) <==> exists|t: Name, sig: Name, p: Name|
                row == #[trigger] rows::three_row(t, sig, p) && by_name(ledger@, t, sig, p),
{
    let ghost log = ledger@;
    let sites = ledger.relation(Kind::LuaSite);
    let ghost all = rows::views(sites@);
    let none = String::new();
    let mut r: Vec<Row> = Vec::new();
    let mut i: usize = 0;
    while i < sites.len()
        invariant
            i <= sites@.len(),
            none@ == Seq::<char>::empty(),
            h.wf(),
            h.decls() == ledger::noted(log, Kind::Declares),
            all == rows::views(sites@),
            rows::all_fit(all, rows::one_shape()),
            forall|row: Seq<Datum>| #[trigger]
                rows::views(r@).contains(row) <==> name_part(log, all, i as int, row),
        decreases sites@.len() - i,
    {
        let ghost site = all[i as int];
        let ghost r0 = rows::views(r@);
        proof {
            assert(site == sites@[i as int]@);
            assert(rows::fits(site, rows::one_shape()));
            assert(site[0].is_text());
        }
        let name = sites[i].text(0);
        let sig = cat("lua->", name.as_str());
        let targets = h.declarers(name, &none);
        add_targets(&mut r, &sig, &targets);
        proof {
            assert forall|row: Seq<Datum>| #[trigger]
                rows::views(r@).contains(row) <==> name_part(log, all, i + 1, row) by {
                if r0.contains(row) {
                    assert(name_part(log, all, i as int, row));
                }
                if exists|t: Name, p: Name|
                    row == #[trigger] rows::three_row(t, sig@, p) && hierarchy::pairs_up(
                        targets@,
                        t,
                        p,
                    ) {
                    let (t, p) = choose|t: Name, p: Name|
                        row == #[trigger] rows::three_row(t, sig@, p) && hierarchy::pairs_up(
                            targets@,
                            t,
                            p,
                        );
                    let decl = rows::four_row(t, all[i as int][0].text(), Seq::empty(), p);
                    ledger::lemma_noted(log, Kind::Declares, decl);
                    assert(ledger::relation(log, Kind::Declares).contains(decl));
                }
                if name_part(log, all, i + 1, row) {
                    let (j, t, p) = choose|j: int, t: Name, p: Name|
                        0 <= j < i + 1 && row == rows::three_row(
                            t,
                            lower::lua_sig(all[j][0].text()),
                            p,
                        ) && ledger::relation(log, Kind::Declares).contains(
                            #[trigger] rows::four_row(t, all[j][0].text(), Seq::empty(), p),
                        );
                    let decl = rows::four_row(t, all[j][0].text(), Seq::empty(), p);
                    if j < i {
                        assert(name_part(log, all, i as int, row));
                    } else {
                        ledger::lemma_noted(log, Kind::Declares, decl);
                        assert(hierarchy::pairs_up(targets@, t, p));
                    }
                }
            }
        }
        i += 1;
    }
    proof {
        assert forall|row: Seq<Datum>| #[trigger]
            rows::views(r@).contains(row) <==> exists|t: Name, sig: Name, p: Name|
                row == #[trigger] rows::three_row(t, sig, p) && by_name(log, t, sig, p) by {
            if name_part(log, all, all.len() as int, row) {
                let (j, t, p) = choose|j: int, t: Name, p: Name|
                    0 <= j < all.len() && row == rows::three_row(
                        t,
                        lower::lua_sig(all[j][0].text()),
                        p,
                    ) && ledger::relation(log, Kind::Declares).contains(
                        #[trigger] rows::four_row(t, all[j][0].text(), Seq::empty(), p),
                    );
                let a = all[j][0].text();
                assert(rows::fits(all[j], rows::one_shape()));
                assert(all[j][0].is_text());
                assert(all[j] =~= rows::one_row(a));
                assert(all.contains(all[j]));
                assert(by_name(log, t, lower::lua_sig(a), p));
            }
            if exists|t: Name, sig: Name, p: Name|
                row == #[trigger] rows::three_row(t, sig, p) && by_name(log, t, sig, p) {
                let (t, sig, p) = choose|t: Name, sig: Name, p: Name|
                    row == #[trigger] rows::three_row(t, sig, p) && by_name(log, t, sig, p);
                let a = choose|a: Name|
                    ledger::relation(log, Kind::LuaSite).contains(#[trigger] rows::one_row(a))
                        && sig
                        == lower::lua_sig(a) && ledger::relation(log, Kind::Declares).contains(
                        rows::four_row(t, a, Seq::empty(), p),
                    );
                let site = rows::one_row(a);
                assert(all.contains(site));
                let j = choose|j: int| 0 <= j < all.len() && all[j] == site;
                assert(all[j][0].text() == a);
                assert(ledger::relation(log, Kind::Declares).contains(
                    rows::four_row(t, all[j][0].text(), Seq::empty(), p),
                ));
                assert(name_part(log, all, all.len() as int, row));
            }
        }
    }
    r
}

/// Every function whose address is taken, with its type as a pointer.
fn taken(ledger: &Ledger) -> (r: Vec<(String, String)>)
    requires
        ledger::shapely(ledger@),
    ensures
        forall|t: Name, p: Name| #[trigger]
            hierarchy::pairs_up(r@, t, p) <==> t == lower::pointer_type(p) && ledger::relation(
                ledger@,
                Kind::Taken,
            ).contains(rows::one_row(p)),
{
    let ghost log = ledger@;
    let list = ledger.relation(Kind::Taken);
    let ghost all = rows::views(list@);
    let mut r: Vec<(String, String)> = Vec::new();
    let mut i: usize = 0;
    while i < list.len()
        invariant
            i <= list@.len(),
            all == rows::views(list@),
            rows::all_fit(all, rows::one_shape()),
            forall|t: Name, p: Name| #[trigger]
                hierarchy::pairs_up(r@, t, p) <==> t == lower::pointer_type(p) && all.take(
                    i as int,
                ).contains(rows::one_row(p)),
        decreases list@.len() - i,
    {
        let ghost row = all[i as int];
        let ghost r0 = r@;
        proof {
            assert(row == list@[i as int]@);
            assert(rows::fits(row, rows::one_shape()));
            assert(row[0].is_text());
        }
        let p = list[i].text(0).clone();
        let x = (cat("$fn:", p.as_str()), p);
        r.push(x);
        proof {
            hierarchy::lemma_pair_pushed(r0, x);
            assert(row =~= rows::one_row(x.1@));
            assert(all.take(i + 1) =~= all.take(i as int).push(row));
            assert forall|t: Name, p: Name| #[trigger]
                hierarchy::pairs_up(r@, t, p) <==> t == lower::pointer_type(p) && all.take(
                    i + 1,
                ).contains(rows::one_row(p)) by {
                lemma_pushed(all.take(i as int), row, rows::one_row(p));
                if rows::one_row(p) == row {
                    lemma_one(p, x.1@);
                }
            }
        }
        i += 1;
    }
    proof {
        assert(all.take(i as int) =~= all);
        assert forall|t: Name, p: Name| #[trigger]
            hierarchy::pairs_up(r@, t, p) <==> t == lower::pointer_type(p) && ledger::relation(
                log,
                Kind::Taken,
            ).contains(rows::one_row(p)) by {
            assert(all.contains(rows::one_row(p)) <==> ledger::relation(log, Kind::Taken).contains(
                rows::one_row(p),
            ));
        }
    }
    r
}

spec fn pointer_part(log: Seq<Entry>, sites: Seq<Seq<Datum>>, n: int, row: Seq<Datum>) -> bool {
    exists|i: int, p: Name|
        0 <= i < n && row == #[trigger] rows::three_row(
            lower::pointer_type(p),
            lower::pointer_sig(sites[i][0].text()),
            p,
        ) && ledger::relation(log, Kind::Taken).contains(rows::one_row(p))
}

fn pointer_lookups(ledger: &Ledger) -> (r: Vec<Row>)
    requires
        ledger::shapely(ledger@),
    ensures
        forall|row: Seq<Datum>| #[trigger]
            rows::views(r@).contains(row) <==> exists|t: Name, sig: Name, p: Name|
                row == #[trigger] rows::three_row(t, sig, p) && by_pointer(ledger@, t, sig, p),
{
    let ghost log = ledger@;
    let sites = ledger.relation(Kind::PointerSite);
    let ghost all = rows::views(sites@);
    let targets = taken(ledger);
    let mut r: Vec<Row> = Vec::new();
    let mut i: usize = 0;
    while i < sites.len()
        invariant
            i <= sites@.len(),
            all == rows::views(sites@),
            rows::all_fit(all, rows::one_shape()),
            forall|t: Name, p: Name| #[trigger]
                hierarchy::pairs_up(targets@, t, p) <==> t == lower::pointer_type(p)
                    && ledger::relation(log, Kind::Taken).contains(rows::one_row(p)),
            forall|row: Seq<Datum>| #[trigger]
                rows::views(r@).contains(row) <==> pointer_part(log, all, i as int, row),
        decreases sites@.len() - i,
    {
        let ghost site = all[i as int];
        let ghost r0 = rows::views(r@);
        proof {
            assert(site == sites@[i as int]@);
            assert(rows::fits(site, rows::one_shape()));
            assert(site[0].is_text());
        }
        let sig = lower::show_pointer_sig(sites[i].text(0));
        add_targets(&mut r, &sig, &targets);
        proof {
            assert forall|row: Seq<Datum>| #[trigger]
                rows::views(r@).contains(row) <==> pointer_part(log, all, i + 1, row) by {
                if r0.contains(row) {
                    assert(pointer_part(log, all, i as int, row));
                }
                if exists|t: Name, p: Name|
                    row == #[trigger] rows::three_row(t, sig@, p) && hierarchy::pairs_up(
                        targets@,
                        t,
                        p,
                    ) {
                    let (t, p) = choose|t: Name, p: Name|
                        row == #[trigger] rows::three_row(t, sig@, p) && hierarchy::pairs_up(
                            targets@,
                            t,
                            p,
                        );
                    assert(row == rows::three_row(
                        lower::pointer_type(p),
                        lower::pointer_sig(all[i as int][0].text()),
                        p,
                    ));
                }
                if pointer_part(log, all, i + 1, row) {
                    let (j, p) = choose|j: int, p: Name|
                        0 <= j < i + 1 && row == #[trigger] rows::three_row(
                            lower::pointer_type(p),
                            lower::pointer_sig(all[j][0].text()),
                            p,
                        ) && ledger::relation(log, Kind::Taken).contains(rows::one_row(p));
                    if j < i {
                        assert(pointer_part(log, all, i as int, row));
                    } else {
                        assert(hierarchy::pairs_up(targets@, lower::pointer_type(p), p));
                    }
                }
            }
        }
        i += 1;
    }
    proof {
        assert forall|row: Seq<Datum>| #[trigger]
            rows::views(r@).contains(row) <==> exists|t: Name, sig: Name, p: Name|
                row == #[trigger] rows::three_row(t, sig, p) && by_pointer(log, t, sig, p) by {
            if pointer_part(log, all, all.len() as int, row) {
                let (j, p) = choose|j: int, p: Name|
                    0 <= j < all.len() && row == #[trigger] rows::three_row(
                        lower::pointer_type(p),
                        lower::pointer_sig(all[j][0].text()),
                        p,
                    ) && ledger::relation(log, Kind::Taken).contains(rows::one_row(p));
                let a = all[j][0].text();
                assert(rows::fits(all[j], rows::one_shape()));
                assert(all[j][0].is_text());
                assert(all[j] =~= rows::one_row(a));
                assert(all.contains(all[j]));
                assert(by_pointer(log, lower::pointer_type(p), lower::pointer_sig(a), p));
            }
            if exists|t: Name, sig: Name, p: Name|
                row == #[trigger] rows::three_row(t, sig, p) && by_pointer(log, t, sig, p) {
                let (t, sig, p) = choose|t: Name, sig: Name, p: Name|
                    row == #[trigger] rows::three_row(t, sig, p) && by_pointer(log, t, sig, p);
                let a = choose|a: Name|
                    ledger::relation(log, Kind::PointerSite).contains(#[trigger] rows::one_row(a))
                        && sig == lower::pointer_sig(a) && ledger::relation(
                        log,
                        Kind::Taken,
                    ).contains(rows::one_row(p)) && t == lower::pointer_type(p);
                let site = rows::one_row(a);
                assert(all.contains(site));
                let j = choose|j: int| 0 <= j < all.len() && all[j] == site;
                assert(all[j][0].text() == a);
                assert(row == rows::three_row(
                    lower::pointer_type(p),
                    lower::pointer_sig(all[j][0].text()),
                    p,
                ));
                assert(pointer_part(log, all, all.len() as int, row));
            }
        }
    }
    r
}

fn joined(a: Vec<Row>, b: Vec<Row>) -> (r: Vec<Row>)
    ensures
        forall|row: Seq<Datum>| #[trigger]
            rows::views(r@).contains(row) <==> rows::views(a@).contains(row) || rows::views(
                b@,
            ).contains(row),
{
    let ghost (va, vb) = (rows::views(a@), rows::views(b@));
    let mut r = a;
    let mut rest = b;
    r.append(&mut rest);
    proof {
        let v = rows::views(r@);
        assert(v =~= va + vb);
        assert forall|row: Seq<Datum>| #[trigger]
            v.contains(row) <==> va.contains(row) || vb.contains(row) by {
            if va.contains(row) {
                let i = choose|i: int| 0 <= i < va.len() && va[i] == row;
                assert(v[i] == row);
            }
            if vb.contains(row) {
                let i = choose|i: int| 0 <= i < vb.len() && vb[i] == row;
                assert(v[va.len() + i] == row);
            }
            if v.contains(row) {
                let i = choose|i: int| 0 <= i < v.len() && v[i] == row;
                if i < va.len() {
                    assert(va[i] == row);
                } else {
                    assert(vb[i - va.len()] == row);
                }
            }
        }
    }
    r
}

/// The lookup relation of the notes, in order.
pub fn lookups(ledger: &Ledger, fallback: bool) -> (r: Vec<Row>)
    requires
        ledger::shapely(ledger@),
    ensures
        rows::lists(rows::views(r@), lookup(ledger@, fallback)),
        rows::all_fit(rows::views(r@), rows::three_shape()),
{
    let ghost log = ledger@;
    let decls = ledger.rows(Kind::Declares);
    let edges = ledger.rows(Kind::Extends);
    let h = Hierarchy::new(decls, edges);
    let a = class_lookups(ledger, &h, fallback);
    let b = name_lookups(ledger, &h);
    let c = pointer_lookups(ledger);
    let ghost (va, vb, vc) = (rows::views(a@), rows::views(b@), rows::views(c@));
    let all = joined(joined(a, b), c);
    let ghost rel = lookup(log, fallback);
    proof {
        assert forall|x: Seq<Datum>| rel.contains(x) <==> #[trigger] rows::views(all@).contains(
            x,
        ) by {
            if rel.contains(x) {
                let (t, sig, p) = choose|t: Name, sig: Name, p: Name|
                    x == #[trigger] rows::three_row(t, sig, p) && selects(log, fallback, t, sig, p);
                assert(x == rows::three_row(t, sig, p));
                assert(va.contains(x) || vb.contains(x) || vc.contains(x));
            }
            if va.contains(x) {
                let (t, sig, p) = choose|t: Name, sig: Name, p: Name|
                    x == #[trigger] rows::three_row(t, sig, p) && by_class(
                        log,
                        fallback,
                        t,
                        sig,
                        p,
                    );
                assert(selects(log, fallback, t, sig, p));
            }
            if vb.contains(x) {
                let (t, sig, p) = choose|t: Name, sig: Name, p: Name|
                    x == #[trigger] rows::three_row(t, sig, p) && by_name(log, t, sig, p);
                assert(selects(log, fallback, t, sig, p));
            }
            if vc.contains(x) {
                let (t, sig, p) = choose|t: Name, sig: Name, p: Name|
                    x == #[trigger] rows::three_row(t, sig, p) && by_pointer(log, t, sig, p);
                assert(selects(log, fallback, t, sig, p));
            }
        }
    }
    let r = rows::arranged(&all, Ghost(rel));
    proof {
        let v = rows::views(r@);
        assert forall|i: int| 0 <= i < v.len() implies rows::fits(
            #[trigger] v[i],
            rows::three_shape(),
        ) by {
            assert(v.contains(v[i]));
            assert(rel.contains(v[i]));
        }
    }
    r
}

/// The signatures that each procedure implements, from the lookup relation.
pub fn proc_sigs(
    found: &Vec<Row>,
    Ghost(log): Ghost<Seq<Entry>>,
    Ghost(fallback): Ghost<bool>,
) -> (r: Vec<Row>)
    requires
        rows::lists(rows::views(found@), lookup(log, fallback)),
        rows::all_fit(rows::views(found@), rows::three_shape()),
    ensures
        rows::lists(rows::views(r@), proc_sig(log, fallback)),
        rows::all_fit(rows::views(r@), rows::two_shape()),
{
    let ghost all = rows::views(found@);
    let ghost rel = proc_sig(log, fallback);
    let mut list: Vec<Row> = Vec::new();
    let mut i: usize = 0;
    while i < found.len()
        invariant
            i <= found@.len(),
            all == rows::views(found@),
            rows::all_fit(all, rows::three_shape()),
            list@.len() == i,
            forall|j: int|
                0 <= j < i ==> (#[trigger] list@[j])@ == rows::two_row(
                    all[j][2].text(),
                    all[j][1].text(),
                ),
        decreases found@.len() - i,
    {
        let ghost row = all[i as int];
        proof {
            assert(row == found@[i as int]@);
            assert(rows::fits(row, rows::three_shape()));
            assert(row[0].is_text() && row[1].is_text() && row[2].is_text());
        }
        let x = Row(
            vec![Cell::Text(found[i].text(2).clone()), Cell::Text(found[i].text(1).clone())],
        );
        proof {
            assert(x@ =~= rows::two_row(row[2].text(), row[1].text()));
        }
        list.push(x);
        i += 1;
    }
    proof {
        let v = rows::views(list@);
        assert forall|x: Seq<Datum>| rel.contains(x) <==> #[trigger] v.contains(x) by {
            if rel.contains(x) {
                let (t, sig, p) = choose|t: Name, sig: Name, p: Name|
                    x == rows::two_row(p, sig) && #[trigger] selects(log, fallback, t, sig, p);
                let row = rows::three_row(t, sig, p);
                assert(lookup(log, fallback).contains(row));
                assert(all.contains(row));
                let j = choose|j: int| 0 <= j < all.len() && all[j] == row;
                assert(all[j][2].text() == p && all[j][1].text() == sig);
                assert(v[j] == list@[j]@);
            }
            if v.contains(x) {
                let j = choose|j: int| 0 <= j < v.len() && v[j] == x;
                assert(v[j] == list@[j]@);
                assert(all.contains(all[j]));
                let (t, sig, p) = choose|t: Name, sig: Name, p: Name|
                    all[j] == #[trigger] rows::three_row(t, sig, p) && selects(
                        log,
                        fallback,
                        t,
                        sig,
                        p,
                    );
                assert(all[j][2].text() == p && all[j][1].text() == sig);
                assert(selects(log, fallback, t, sig, p));
            }
        }
    }
    let r = rows::arranged(&list, Ghost(rel));
    proof {
        let v = rows::views(r@);
        assert forall|i: int| 0 <= i < v.len() implies rows::fits(
            #[trigger] v[i],
            rows::two_shape(),
        ) by {
            assert(v.contains(v[i]));
            assert(rel.contains(v[i]));
        }
    }
    r
}

/// The texts of one column.
fn column(list: &Vec<Row>, col: usize, names: Names) -> (r: Names)
    requires
        names.wf(),
        forall|i: int|
            0 <= i < list@.len() ==> col < (#[trigger] list@[i])@.len()
                && list@[i]@[col as int].is_text(),
    ensures
        r.wf(),
        forall|x: Name| #[trigger]
            r@.contains(x) <==> names@.contains(x) || exists|i: int|
                0 <= i < list@.len() && (#[trigger] list@[i])@[col as int].text() == x,
{
    let ghost start = names@;
    let mut r = names;
    let mut i: usize = 0;
    while i < list.len()
        invariant
            i <= list@.len(),
            r.wf(),
            forall|i: int|
                0 <= i < list@.len() ==> col < (#[trigger] list@[i])@.len()
                    && list@[i]@[col as int].is_text(),
            forall|x: Name| #[trigger]
                r@.contains(x) <==> start.contains(x) || exists|j: int|
                    0 <= j < i && (#[trigger] list@[j])@[col as int].text() == x,
        decreases list@.len() - i,
    {
        let ghost before = r@;
        let ghost key = list@[i as int]@[col as int].text();
        r.number(list[i].text(col));
        proof {
            assert forall|x: Name| #[trigger]
                r@.contains(x) <==> start.contains(x) || exists|j: int|
                    0 <= j < i + 1 && (#[trigger] list@[j])@[col as int].text() == x by {
                if before.contains(x) {
                    let j = choose|j: int| 0 <= j < before.len() && before[j] == x;
                    assert(r@[j] == x);
                    if !start.contains(x) {
                        let j = choose|j: int|
                            0 <= j < i && (#[trigger] list@[j])@[col as int].text() == x;
                        assert(list@[j]@[col as int].text() == x);
                    }
                }
                if x == key {
                    assert(list@[i as int]@[col as int].text() == x);
                    assert(r@.contains(x)) by {
                        if !before.contains(x) {
                            assert(r@[before.len() as int] == x);
                        }
                    }
                }
                if r@.contains(x) && !before.contains(x) {
                    let j = choose|j: int| 0 <= j < r@.len() && r@[j] == x;
                    if j < before.len() {
                        assert(before[j] == x);
                    }
                }
            }
        }
        i += 1;
    }
    r
}

/// The procedures with a body that nothing calls.
pub fn entries(ledger: &Ledger, found: &Vec<Row>, Ghost(fallback): Ghost<bool>) -> (r: Vec<Row>)
    requires
        ledger::shapely(ledger@),
        rows::lists(rows::views(found@), lookup(ledger@, fallback)),
        rows::all_fit(rows::views(found@), rows::three_shape()),
    ensures
        rows::lists(rows::views(r@), entry(ledger@, fallback)),
        rows::all_fit(rows::views(r@), rows::one_shape()),
{
    let ghost log = ledger@;
    let direct = ledger.relation(Kind::DirectCall);
    let ghost (vd, vf) = (rows::views(direct@), rows::views(found@));
    proof {
        assert forall|i: int| 0 <= i < direct@.len() implies (#[trigger] direct@[i])@.len() == 2
            && direct@[i]@[1].is_text() by {
            assert(vd[i] == direct@[i]@);
            assert(rows::fits(vd[i], rows::two_shape()));
        }
        assert forall|i: int| 0 <= i < found@.len() implies (#[trigger] found@[i])@.len() == 3
            && found@[i]@[2].is_text() by {
            assert(vf[i] == found@[i]@);
            assert(rows::fits(vf[i], rows::three_shape()));
        }
    }
    let named = column(&direct, 1, Names::new());
    let busy = column(found, 2, named);
    proof {
        assert forall|p: Name| #[trigger] busy@.contains(p) <==> called(log, fallback, p) by {
            if exists|i: int| 0 <= i < direct@.len() && (#[trigger] direct@[i])@[1].text() == p {
                let i = choose|i: int|
                    0 <= i < direct@.len() && (#[trigger] direct@[i])@[1].text() == p;
                assert(vd[i] == direct@[i]@);
                assert(rows::fits(vd[i], rows::two_shape()));
                assert(vd[i][0].is_text() && vd[i][1].is_text());
                assert(vd[i] =~= rows::two_row(vd[i][0].text(), p));
                assert(vd.contains(vd[i]));
                assert(ledger::relation(log, Kind::DirectCall).contains(
                    rows::two_row(vd[i][0].text(), p),
                ));
            }
            if exists|s: Name|
                ledger::relation(log, Kind::DirectCall).contains(#[trigger] rows::two_row(s, p)) {
                let s = choose|s: Name|
                    ledger::relation(log, Kind::DirectCall).contains(#[trigger] rows::two_row(s,
                        p));
                assert(vd.contains(rows::two_row(s, p)));
                let i = choose|i: int| 0 <= i < vd.len() && vd[i] == rows::two_row(s, p);
                assert(vd[i] == direct@[i]@);
                assert(direct@[i]@[1].text() == p);
                assert(named@.contains(p));
            }
            if exists|i: int| 0 <= i < found@.len() && (#[trigger] found@[i])@[2].text() == p {
                let i = choose|i: int|
                    0 <= i < found@.len() && (#[trigger] found@[i])@[2].text() == p;
                assert(vf[i] == found@[i]@);
                assert(vf.contains(vf[i]));
                let (t, sig, q) = choose|t: Name, sig: Name, q: Name|
                    vf[i] == #[trigger] rows::three_row(t, sig, q) && selects(
                        log,
                        fallback,
                        t,
                        sig,
                        q,
                    );
                assert(q == p);
                assert(selects(log, fallback, t, sig, p));
            }
            if exists|t: Name, sig: Name| selects(log, fallback, t, sig, p) {
                let (t, sig) = choose|t: Name, sig: Name| selects(log, fallback, t, sig, p);
                let row = rows::three_row(t, sig, p);
                assert(lookup(log, fallback).contains(row));
                assert(vf.contains(row));
                let i = choose|i: int| 0 <= i < vf.len() && vf[i] == row;
                assert(vf[i] == found@[i]@);
                assert(found@[i]@[2].text() == p);
            }
        }
    }
    let procs = ledger.relation(Kind::Procedure);
    let ghost all = rows::views(procs@);
    let ghost rel = entry(log, fallback);
    let mut list: Vec<Row> = Vec::new();
    let mut i: usize = 0;
    while i < procs.len()
        invariant
            i <= procs@.len(),
            busy.wf(),
            all == rows::views(procs@),
            rows::all_fit(all, rows::one_shape()),
            forall|p: Name| #[trigger] busy@.contains(p) <==> called(log, fallback, p),
            forall|x: Seq<Datum>| #[trigger]
                rows::views(list@).contains(x) <==> all.take(i as int).contains(x) && !called(
                    log,
                    fallback,
                    x[0].text(),
                ),
        decreases procs@.len() - i,
    {
        let ghost row = all[i as int];
        let ghost l0 = rows::views(list@);
        proof {
            assert(row == procs@[i as int]@);
            assert(rows::fits(row, rows::one_shape()));
            assert(row[0].is_text());
            assert(all.take(i + 1) =~= all.take(i as int).push(row));
            assert forall|x: Seq<Datum>| #[trigger]
                all.take(i + 1).contains(x) <==> all.take(i as int).contains(x) || x == row by {
                lemma_pushed(all.take(i as int), row, x);
            }
        }
        let p = procs[i].text(0);
        let skip = match busy.find(p) {
            Some(_) => true,
            None => false,
        };
        proof {
            if skip {
                assert(busy@.contains(p@));
            }
        }
        if !skip {
            let x = crate::order::Ranked::twin(&procs[i]);
            list.push(x);
            proof {
                assert(rows::views(list@) =~= l0.push(row));
                assert forall|x: Seq<Datum>| #[trigger]
                    rows::views(list@).contains(x) <==> l0.contains(x) || x == row by {
                    lemma_pushed(l0, row, x);
                }
            }
        }
        i += 1;
    }
    proof {
        assert(all.take(i as int) =~= all);
        assert forall|x: Seq<Datum>| rel.contains(x) <==> #[trigger] rows::views(list@).contains(
            x,
        ) by {
            if all.contains(x) {
                let j = choose|j: int| 0 <= j < all.len() && all[j] == x;
                assert(rows::fits(all[j], rows::one_shape()));
                assert(x[0].is_text());
                assert(x =~= rows::one_row(x[0].text()));
            }
            if rel.contains(x) {
                let p = choose|p: Name|
                    x == #[trigger] rows::one_row(p) && ledger::relation(
                        log,
                        Kind::Procedure,
                    ).contains(x) && !called(log, fallback, p);
                assert(x[0].text() == p);
                assert(all.contains(x));
            }
        }
    }
    let r = rows::arranged(&list, Ghost(rel));
    proof {
        let v = rows::views(r@);
        assert forall|i: int| 0 <= i < v.len() implies rows::fits(
            #[trigger] v[i],
            rows::one_shape(),
        ) by {
            assert(v.contains(v[i]));
            assert(rel.contains(v[i]));
        }
    }
    r
}

} // verus!
