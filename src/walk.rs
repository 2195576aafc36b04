use vstd::prelude::*;
use crate::value::{Kind, Value, kind_of};

verus! {

/// One step down a tree: to an item of an array, or to the key or the value
/// of an entry of a map (by index, in stored order).
#[derive(Clone, Copy, Debug, PartialEq, Eq, Structural)]
pub enum Step {
    Item(usize),
    EntryKey(usize),
    EntryValue(usize),
}

/// One node met by a walk: the steps from the root to it, and its kind.
#[derive(Debug)]
pub struct Visit {
    pub path: Vec<Step>,
    pub kind: Kind,
}

impl View for Visit {
    type V = (Seq<Step>, Kind);

    open spec fn view(&self) -> (Seq<Step>, Kind) {
        (self.path@, self.kind)
    }
}

/// The views of the visits, in order.
pub open spec fn visits_view(s: Seq<Visit>) -> Seq<(Seq<Step>, Kind)> {
    s.map_values(|x: Visit| x@)
}

/// The depth-first walk of `v`, found at `path`: `v` itself, then the walks
/// of the items of an array in index order, or of the key and then the value
/// of each entry of a map in stored order.
pub open spec fn walk_of(v: Value, path: Seq<Step>) -> Seq<(Seq<Step>, Kind)>
    decreases v,
{
    seq![(path, kind_of(v))] + match v {
        Value::Array(xs) => walk_items(xs@, path),
        Value::Mapping(es) => walk_entries(es@, path),
        _ => Seq::empty(),
    }
}

/// The walks of the items, each found at its index below `path`.
pub open spec fn walk_items(xs: Seq<Value>, path: Seq<Step>) -> Seq<(Seq<Step>, Kind)>
    decreases xs,
{
    if xs.len() == 0 {
        Seq::empty()
    } else {
        let n = xs.len() - 1;
        walk_items(xs.subrange(0, n), path) + walk_of(xs[n], path.push(Step::Item(n as usize)))
    }
}

/// The walks of the entries below `path`: of each key, then of its value.
pub open spec fn walk_entries(es: Seq<(Value, Value)>, path: Seq<Step>) -> Seq<(Seq<Step>, Kind)>
    decreases es,
{
    if es.len() == 0 {
        Seq::empty()
    } else {
        let n = es.len() - 1;
        walk_entries(es.subrange(0, n), path)
            + walk_of(es[n].0, path.push(Step::EntryKey(n as usize)))
            + walk_of(es[n].1, path.push(Step::EntryValue(n as usize)))
    }
}

/// A copy of the steps.
fn copy_steps(path: &Vec<Step>) -> (r: Vec<Step>)
    ensures
        r@ == path@,
{
    let mut out: Vec<Step> = Vec::new();
    let mut i: usize = 0;
    while i < path.len()
        invariant
            i <= path@.len(),
            out@ == path@.subrange(0, i as int),
        decreases path@.len() - i,
    {
        out.push(path[i]);
        i = i + 1;
        assert(out@ =~= path@.subrange(0, i as int));
    }
    assert(out@ =~= path@);
    out
}

/// Appends one visit.
fn push_visit(out: &mut Vec<Visit>, path: &Vec<Step>, kind: Kind)
    ensures
        visits_view(final(out)@) == visits_view(old(out)@).push((path@, kind)),
{
    out.push(Visit { path: copy_steps(path), kind });
    assert(visits_view(final(out)@) =~= visits_view(old(out)@).push((path@, kind)));
}

/// The walks of the nodes still to visit, the last one first.
pub open spec fn pending_walk(st: Seq<(Value, Seq<Step>)>) -> Seq<(Seq<Step>, Kind)>
    decreases st.len(),
{
    if st.len() == 0 {
        Seq::empty()
    } else {
        walk_of(st[st.len() - 1].0, st[st.len() - 1].1) + pending_walk(st.subrange(0, st.len() - 1))
    }
}

/// The ghost record of the work stack: the nodes and their paths.
pub open spec fn frames_match(
    stack: Seq<(&Value, Vec<Step>)>,
    pend: Seq<(Value, Seq<Step>)>,
) -> bool {
    stack.len() == pend.len() && forall|i: int|
        0 <= i < stack.len() ==> *(#[trigger] stack[i]).0 == pend[i].0 && stack[i].1@ == pend[i].1
}

/// The steps of `path` with one more at the end.
fn extend(path: &Vec<Step>, step: Step) -> (r: Vec<Step>)
    ensures
        r@ == path@.push(step),
{
    let mut r = copy_steps(path);
    r.push(step);
    r
}

/// Every node of `v` in depth-first order, each with its path from the root
/// and its kind. Each call starts afresh. The nodes still to visit wait on a
/// stack of their own, so deep nesting does not deepen the call stack.
pub fn walk(v: &Value) -> (r: Vec<Visit>)
    ensures
        visits_view(r@) == walk_of(*v, Seq::empty()),
{
    let mut out: Vec<Visit> = Vec::new();
    let mut stack: Vec<(&Value, Vec<Step>)> = Vec::new();
    stack.push((v, Vec::new()));
    let ghost mut pend: Seq<(Value, Seq<Step>)> = seq![(*v, Seq::<Step>::empty())];
    proof {
        assert(pend.subrange(0, 0) =~= Seq::<(Value, Seq<Step>)>::empty());
        assert(pending_walk(pend.subrange(0, 0)) =~= Seq::empty());
        assert(pending_walk(pend) =~= walk_of(*v, Seq::empty()));
        assert(visits_view(out@) =~= Seq::empty());
    }
    while stack.len() > 0
        invariant
            frames_match(stack@, pend),
            visits_view(out@) + pending_walk(pend) == walk_of(*v, Seq::empty()),
        decreases pending_walk(pend).len(),
    {
        let ghost before = visits_view(out@);
        let ghost full = pend;
        let ghost top = pend[pend.len() - 1];
        let ghost rest = pend.subrange(0, pend.len() - 1);
        let (node, path) = stack.pop().unwrap();
        proof {
            pend = rest;
            assert(frames_match(stack@, pend));
        }
        push_visit(&mut out, &path, node.kind());
        let ghost w = walk_of(*node, path@);
        match node {
            Value::Array(xs) => {
                assert(xs@.subrange(0, xs@.len() as int) =~= xs@);
                let mut j: usize = xs.len();
                while j > 0
                    invariant
                        j <= xs@.len(),
                        frames_match(stack@, pend),
                        walk_items(xs@.subrange(0, j as int), path@) + pending_walk(pend)
                            == walk_items(xs@, path@) + pending_walk(rest),
                    decreases j,
                {
                    j = j - 1;
                    let p = extend(&path, Step::Item(j));
                    stack.push((&xs[j], p));
                    proof {
                        let old_pend = pend;
                        pend = pend.push((xs@[j as int], p@));
                        assert(pend.subrange(0, pend.len() - 1) =~= old_pend);
                        let s1 = xs@.subrange(0, j + 1);
                        assert(s1.subrange(0, j as int) =~= xs@.subrange(0, j as int));
                        assert(walk_items(s1, path@) + pending_walk(old_pend) =~= walk_items(
                            xs@.subrange(0, j as int),
                            path@,
                        ) + pending_walk(pend));
                    }
                }
                proof {
                    assert(xs@.subrange(0, 0) =~= Seq::<Value>::empty());
                    assert(xs@.subrange(0, xs@.len() as int) =~= xs@);
                }
            },
            Value::Mapping(es) => {
                assert(es@.subrange(0, es@.len() as int) =~= es@);
                let mut j: usize = es.len();
                while j > 0
                    invariant
                        j <= es@.len(),
                        frames_match(stack@, pend),
                        walk_entries(es@.subrange(0, j as int), path@) + pending_walk(pend)
                            == walk_entries(es@, path@) + pending_walk(rest),
                    decreases j,
                {
                    j = j - 1;
                    let pv = extend(&path, Step::EntryValue(j));
                    stack.push((&es[j].1, pv));
                    let pk = extend(&path, Step::EntryKey(j));
                    stack.push((&es[j].0, pk));
                    proof {
                        let old_pend = pend;
                        let mid = pend.push((es@[j as int].1, pv@));
                        pend = mid.push((es@[j as int].0, pk@));
                        assert(pend.subrange(0, pend.len() - 1) =~= mid);
                        assert(mid.subrange(0, mid.len() - 1) =~= old_pend);
                        assert(pending_walk(pend) == walk_of(es@[j as int].0, pk@) + pending_walk(
                            mid,
                        ));
                        assert(pending_walk(mid) == walk_of(es@[j as int].1, pv@) + pending_walk(
                            old_pend,
                        ));
                        let s1 = es@.subrange(0, j + 1);
                        assert(s1.subrange(0, j as int) =~= es@.subrange(0, j as int));
                        assert(walk_entries(s1, path@) + pending_walk(old_pend) =~= walk_entries(
                            es@.subrange(0, j as int),
                            path@,
                        ) + pending_walk(pend));
                    }
                }
                proof {
                    assert(es@.subrange(0, 0) =~= Seq::<(Value, Value)>::empty());
                    assert(es@.subrange(0, es@.len() as int) =~= es@);
                }
            },
            _ => {},
        }
        proof {
            assert(full.subrange(0, full.len() - 1) =~= rest);
            assert(top.0 == *node && top.1 == path@);
            assert(pending_walk(full) == w + pending_walk(rest));
            assert(w =~= seq![(path@, kind_of(*node))] + w.subrange(1, w.len() as int));
            assert(pending_walk(pend) =~= w.subrange(1, w.len() as int) + pending_walk(rest));
            assert(visits_view(out@) + pending_walk(pend) =~= before + pending_walk(full));
        }
    }
    out
}

/// The label that names the kind of a map key.
pub open spec fn key_type_label(k: Kind) -> Seq<char> {
    match k {
        Kind::Nil => "Key type: Nil"@,
        Kind::Boolean => "Key type: Boolean"@,
        Kind::Integer => "Key type: Integer"@,
        Kind::F32 => "Key type: F32"@,
        Kind::F64 => "Key type: F64"@,
        Kind::String => "Key type: String"@,
        Kind::Binary => "Key type: Binary"@,
        Kind::Array => "Key type: Array"@,
        Kind::Mapping => "Key type: Map"@,
        Kind::Ext => "Key type: Ext"@,
    }
}

/// The label that names the kind of `value`, shown beside a map key.
pub fn type_name_of(value: &Value) -> (r: &'static str)
    ensures
        r@ == key_type_label(kind_of(*value)),
{
    match value {
        Value::Nil => "Key type: Nil",
        Value::Boolean(_) => "Key type: Boolean",
        Value::Integer(_) => "Key type: Integer",
        Value::F32(_) => "Key type: F32",
        Value::F64(_) => "Key type: F64",
        Value::String(_) => "Key type: String",
        Value::Binary(_) => "Key type: Binary",
        Value::Array(_) => "Key type: Array",
        Value::Mapping(_) => "Key type: Map",
        Value::Ext(_, _) => "Key type: Ext",
    }
}

/// Whether a map key is shown in the entry's own heading (nil, strings,
/// integers and floats), rather than beside the value with its kind named.
pub fn key_shown_in_heading(key: &Value) -> (r: bool)
    ensures
        r == (kind_of(*key) == Kind::Nil || kind_of(*key) == Kind::String || kind_of(*key)
            == Kind::Integer || kind_of(*key) == Kind::F64 || kind_of(*key) == Kind::F32),
{
    match key {
        Value::Nil | Value::String(_) | Value::Integer(_) | Value::F64(_) | Value::F32(_) => true,
        _ => false,
    }
}

} // verus!
